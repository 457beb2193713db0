use vstd::prelude::*;
use futures::channel::oneshot::Sender;
use crate::protocol::{PollInput, PollOutput};

verus! {

/// Whether a listener still waits for its task.
#[derive(Clone, Copy, Debug, PartialEq, Eq, Structural)]
pub enum CancelState {
    /// Registered, and the host does not listen yet.
    Pending,
    /// Cancelled or done: nobody waits any more.
    Cancel,
    /// The host listens; the handle cancels its listening.
    Listening(u32),
}

/// A listener cell: whether its wait is still on, and whether the wait that
/// created it is still alive to cancel it when dropped.
#[derive(Clone, Copy, Debug, PartialEq, Eq, Structural)]
pub struct Cell {
    pub state: CancelState,
    pub guarded: bool,
}

/// A task that a guest future waits for, registered while the future was
/// polled and not yet handed to the host.
pub struct PendingState {
    pub pending: u32,
    pub tx: Sender<u32>,
    pub cell: usize,
}

/// A wait for a task that the host listens to on behalf of a future.
pub struct ListenState {
    pub tx: Sender<u32>,
    pub future: u32,
    pub cell: usize,
}

/// The state of a guest call that did not finish at once.
pub enum FutureState<V> {
    /// Still running; `ready` is the handle that reports it finished, and
    /// `cancel_states` are the listeners the host listens on for it.
    Pending { ready: Option<u32>, cancel_states: Vec<usize> },
    /// Cancelled by the host; the handle reports the cancellation finished.
    Cancelled(Option<u32>),
    /// Finished, with its result until the host collects it.
    Ready(Option<V>),
}

/// A guest call together with what keeps it alive: the handle in the host's
/// pending output, the handle in its ready output, a place in the list of
/// calls to poll, and the listeners that wait on its behalf.
pub struct FutureEntry<V> {
    pub pending_handle: bool,
    pub ready_handle: bool,
    pub polling: bool,
    pub state: FutureState<V>,
}

/// A registered wait as the contracts see it: the task's pending handle,
/// the wait's listener cell, and the sender that resolves the wait.
pub struct PendingView {
    pub pending: u32,
    pub cell: usize,
    pub tx: Sender<u32>,
}

/// A listener as the contracts see it: the call it waits on behalf of, the
/// wait's listener cell, and the sender that resolves the wait.
pub struct ListenView {
    pub future: u32,
    pub cell: usize,
    pub tx: Sender<u32>,
}

pub enum FutureStateView<V> {
    Pending { ready: Option<u32>, cancel_states: Seq<usize> },
    Cancelled(Option<u32>),
    Ready(Option<V>),
}

pub struct FutureView<V> {
    pub pending_handle: bool,
    pub ready_handle: bool,
    pub polling: bool,
    pub state: FutureStateView<V>,
}

/// The guest's side of the protocol as plain values: registered waits, the
/// outputs for the host, the handles given up, the listener cells, the
/// listeners and calls by key, and the calls to poll.
pub struct GuestView<V> {
    pub pending: Seq<PendingView>,
    pub output: Seq<PollOutput>,
    pub dropped: Seq<u32>,
    pub cells: Seq<Option<Cell>>,
    pub listens: Seq<Option<ListenView>>,
    pub futures: Seq<Option<FutureView<V>>>,
    pub pollables: Seq<u32>,
}

impl View for PendingState {
    type V = PendingView;

    open spec fn view(&self) -> PendingView {
        PendingView { pending: self.pending, cell: self.cell, tx: self.tx }
    }
}

impl View for ListenState {
    type V = ListenView;

    open spec fn view(&self) -> ListenView {
        ListenView { future: self.future, cell: self.cell, tx: self.tx }
    }
}

impl<V> View for FutureState<V> {
    type V = FutureStateView<V>;

    open spec fn view(&self) -> FutureStateView<V> {
        match self {
            FutureState::Pending { ready, cancel_states } => FutureStateView::Pending {
                ready: *ready,
                cancel_states: cancel_states@,
            },
            FutureState::Cancelled(c) => FutureStateView::Cancelled(*c),
            FutureState::Ready(v) => FutureStateView::Ready(*v),
        }
    }
}

impl<V> View for FutureEntry<V> {
    type V = FutureView<V>;

    open spec fn view(&self) -> FutureView<V> {
        FutureView {
            pending_handle: self.pending_handle,
            ready_handle: self.ready_handle,
            polling: self.polling,
            state: self.state@,
        }
    }
}

pub open spec fn opt_view<T: View>(x: Option<T>) -> Option<T::V> {
    match x {
        Some(t) => Some(t@),
        None => None,
    }
}

/// Whether `i` is the first free slot of `s`: every slot before it is
/// taken, and it is free or one past the end.
pub open spec fn is_first_free<T>(s: Seq<Option<T>>, i: int) -> bool {
    &&& 0 <= i <= s.len()
    &&& i < s.len() ==> s[i] is None
    &&& forall|j: int| 0 <= j < i ==> s[j] is Some
}

/// The first free slot of `s`, where a new entry goes.
pub open spec fn first_free<T>(s: Seq<Option<T>>) -> int {
    choose|i: int| is_first_free(s, i)
}

/// `s` with slot `i` (a slot of `s` or the one past its end) set to `x`.
pub open spec fn set_slot<T>(s: Seq<Option<T>>, i: int, x: T) -> Seq<Option<T>> {
    if i < s.len() {
        s.update(i, Some(x))
    } else {
        s.push(Some(x))
    }
}

proof fn lemma_first_free<T>(s: Seq<Option<T>>, i: int)
    requires
        is_first_free(s, i),
    ensures
        first_free(s) == i,
{
    let j = first_free(s);
    assert(is_first_free(s, j));
    if j < i {
        assert(s[j] is Some);
    } else if i < j {
        assert(s[i] is Some);
    }
}

/// The first free slot of a vector of slots.
fn free_slot<T>(v: &Vec<Option<T>>) -> (i: usize)
    ensures
        is_first_free(v@, i as int),
{
    let mut i: usize = 0;
    while i < v.len()
        invariant
            i <= v@.len(),
            forall|j: int| 0 <= j < i ==> v@[j] is Some,
        decreases v@.len() - i,
    {
        if v[i].is_none() {
            return i;
        }
        i = i + 1;
    }
    i
}

/// Whether a listener waits on behalf of call `f`.
pub open spec fn has_listeners(listens: Seq<Option<ListenView>>, f: u32) -> bool {
    exists|i: int|
        0 <= i < listens.len() && (#[trigger] listens[i]) is Some && listens[i]->0.future == f
}

/// Whether anything still refers to call `f`.
pub open spec fn referenced<V>(g: GuestView<V>, f: u32) -> bool {
    let e = g.futures[f as int]->0;
    e.pending_handle || e.ready_handle || e.polling || has_listeners(g.listens, f)
}

/// The state after call `f` was let go of: when nothing refers to it any
/// more it leaves, and a cancelled call reports its cancellation finished.
pub open spec fn collect<V>(g: GuestView<V>, f: u32) -> GuestView<V> {
    if 0 <= f < g.futures.len() && g.futures[f as int] is Some && !referenced(g, f) {
        GuestView {
            futures: g.futures.update(f as int, None),
            output: match g.futures[f as int]->0.state {
                FutureStateView::Cancelled(Some(c)) => g.output.push(PollOutput::CancelComplete(c)),
                _ => g.output,
            },
            ..g
        }
    } else {
        g
    }
}

/// The state after the listener cell `cell` was cancelled: a listening
/// host is told to stop listening.
pub open spec fn cancel_cell<V>(g: GuestView<V>, cell: usize) -> GuestView<V> {
    GuestView {
        cells: g.cells.update(
            cell as int,
            Some(Cell { state: CancelState::Cancel, ..g.cells[cell as int]->0 }),
        ),
        output: match g.cells[cell as int]->0.state {
            CancelState::Listening(c) => g.output.push(PollOutput::Cancel(c)),
            _ => g.output,
        },
        ..g
    }
}

/// Whether `c` names a live listener cell.
pub open spec fn live_cell<V>(g: GuestView<V>, c: usize) -> bool {
    c < g.cells.len() && g.cells[c as int] is Some
}

/// Whether a registered wait refers to cell `c`.
pub open spec fn pending_refers<V>(g: GuestView<V>, c: usize) -> bool {
    exists|i: int| 0 <= i < g.pending.len() && (#[trigger] g.pending[i]).cell == c
}

/// Whether a listener refers to cell `c`.
pub open spec fn listen_refers<V>(g: GuestView<V>, c: usize) -> bool {
    exists|i: int|
        0 <= i < g.listens.len() && (#[trigger] g.listens[i]) is Some && g.listens[i]->0.cell == c
}

/// Whether running call `f` has the host listen on cell `c`.
pub open spec fn call_refers_at<V>(g: GuestView<V>, f: int, c: usize) -> bool {
    &&& 0 <= f < g.futures.len()
    &&& g.futures[f] is Some
    &&& g.futures[f]->0.state is Pending
    &&& g.futures[f]->0.state->cancel_states.contains(c)
}

/// Whether a running call has the host listen on cell `c`.
pub open spec fn call_refers<V>(g: GuestView<V>, c: usize) -> bool {
    exists|f: int| #[trigger] call_refers_at(g, f, c)
}

/// Whether anything still refers to cell `c`: the wait that created it, a
/// registered wait, a listener, or a running call.
pub open spec fn cell_referenced<V>(g: GuestView<V>, c: usize) -> bool {
    g.cells[c as int]->0.guarded || pending_refers(g, c) || listen_refers(g, c) || call_refers(g, c)
}

/// The state after cell `c` was let go of: it leaves when nothing refers to
/// it any more.
pub open spec fn release_cell<V>(g: GuestView<V>, c: usize) -> GuestView<V> {
    if live_cell(g, c) && !cell_referenced(g, c) {
        GuestView { cells: g.cells.update(c as int, None), ..g }
    } else {
        g
    }
}

/// The state after the cells were let go of one after the other.
pub open spec fn release_cells<V>(g: GuestView<V>, cs: Seq<usize>) -> GuestView<V>
    decreases cs.len(),
{
    if cs.len() == 0 {
        g
    } else {
        release_cell(release_cells(g, cs.drop_last()), cs.last())
    }
}

/// The state after the wait that created cell `c` was dropped: the cell is
/// cancelled, no longer guarded, and let go of.
pub open spec fn drop_guard<V>(g: GuestView<V>, c: usize) -> GuestView<V> {
    let cancelled = cancel_cell(g, c);
    release_cell(
        GuestView {
            cells: cancelled.cells.update(
                c as int,
                Some(Cell { guarded: false, ..cancelled.cells[c as int]->0 }),
            ),
            ..cancelled
        },
        c,
    )
}

/// The listener cells are in order: every registered wait, listener and
/// running call refers to a live cell.
pub open spec fn cells_ok<V>(g: GuestView<V>) -> bool {
    &&& forall|i: int| 0 <= i < g.pending.len() ==> live_cell(g, (#[trigger] g.pending[i]).cell)
    &&& forall|i: int|
        0 <= i < g.listens.len() && (#[trigger] g.listens[i]) is Some ==> live_cell(
            g,
            g.listens[i]->0.cell,
        )
    &&& forall|f: int, c: usize| #[trigger] call_refers_at(g, f, c) ==> live_cell(g, c)
}

/// Letting go of a cell changes nothing but the cells, and keeps their
/// number.
proof fn lemma_release_cell_frame<V>(g: GuestView<V>, c: usize)
    ensures
        release_cell(g, c) == (GuestView { cells: release_cell(g, c).cells, ..g }),
        release_cell(g, c).cells.len() == g.cells.len(),
{
}

/// Letting go of cells changes nothing but the cells, and keeps their
/// number.
proof fn lemma_release_cells_frame<V>(g: GuestView<V>, cs: Seq<usize>)
    ensures
        release_cells(g, cs) == (GuestView { cells: release_cells(g, cs).cells, ..g }),
        release_cells(g, cs).cells.len() == g.cells.len(),
    decreases cs.len(),
{
    if cs.len() > 0 {
        lemma_release_cells_frame(g, cs.drop_last());
        lemma_release_cell_frame(release_cells(g, cs.drop_last()), cs.last());
    }
}

/// Letting go of a cell keeps every reference pointing at a live cell.
proof fn lemma_release_cell_ok<V>(g: GuestView<V>, c: usize)
    requires
        cells_ok(g),
    ensures
        cells_ok(release_cell(g, c)),
{
    let r = release_cell(g, c);
    if live_cell(g, c) && !cell_referenced(g, c) {
        assert forall|i: int| 0 <= i < r.pending.len() implies live_cell(r, (#[trigger] r.pending[i]).cell) by {
            assert(live_cell(g, g.pending[i].cell));
            if g.pending[i].cell == c {
                assert(pending_refers(g, c));
            }
        }
        assert forall|i: int| 0 <= i < r.listens.len() && (#[trigger] r.listens[i]) is Some implies live_cell(
            r,
            r.listens[i]->0.cell,
        ) by {
            assert(live_cell(g, g.listens[i]->0.cell));
            if g.listens[i]->0.cell == c {
                assert(listen_refers(g, c));
            }
        }
        assert forall|f: int, d: usize| #[trigger] call_refers_at(r, f, d) implies live_cell(r, d) by {
            assert(call_refers_at(g, f, d));
            if d == c {
                assert(call_refers(g, c));
            }
        }
    }
}

/// The shape of the state and the references to calls depend only on the
/// listeners, the calls and the poll queue.
proof fn lemma_shape_frame<V>(g: GuestView<V>, h: GuestView<V>, skip: Option<u32>)
    requires
        guest_shape(g),
        referenced_except(g, skip),
        h.listens == g.listens,
        h.futures == g.futures,
        h.pollables == g.pollables,
    ensures
        guest_shape(h),
        referenced_except(h, skip),
{
    assert forall|f: int|
        0 <= f < h.futures.len() && (#[trigger] h.futures[f]) is Some && skip != Some(f as u32) implies referenced(
        h,
        f as u32,
    ) by {
        assert(referenced(g, f as u32));
    }
}

/// Every live listener cell, but those in `s`, is referred to by
/// something: a cell leaves once nothing refers to it.
pub open spec fn cells_held_except<V>(g: GuestView<V>, s: Set<usize>) -> bool {
    forall|c: usize| #[trigger] live_cell(g, c) && !s.contains(c) ==> cell_referenced(g, c)
}

/// The references to a cell depend only on the waits, the listeners and the
/// calls.
proof fn lemma_refs_same<V>(g: GuestView<V>, h: GuestView<V>, d: usize)
    requires
        h.pending == g.pending,
        h.listens == g.listens,
        h.futures == g.futures,
    ensures
        pending_refers(h, d) == pending_refers(g, d),
        listen_refers(h, d) == listen_refers(g, d),
        call_refers(h, d) == call_refers(g, d),
{
    if call_refers(g, d) {
        let f = choose|f: int| call_refers_at(g, f, d);
        assert(call_refers_at(h, f, d));
    }
    if call_refers(h, d) {
        let f = choose|f: int| call_refers_at(h, f, d);
        assert(call_refers_at(g, f, d));
    }
}

/// When every live cell of `h` outside `t` was live in `g` and kept its
/// guard, and every reference of `g` to a cell outside `t` is still there
/// in `h`, then `h` holds its cells but those of `g`'s exceptions and `t`.
proof fn lemma_held_persist<V>(g: GuestView<V>, h: GuestView<V>, s: Set<usize>, t: Set<usize>)
    requires
        cells_held_except(g, s),
        forall|d: usize|
            #[trigger] live_cell(h, d) && !t.contains(d) ==> live_cell(g, d) && (
            g.cells[d as int]->0.guarded ==> h.cells[d as int]->0.guarded),
        forall|i: int|
            0 <= i < g.pending.len() && !t.contains((#[trigger] g.pending[i]).cell) ==> pending_refers(
                h,
                g.pending[i].cell,
            ),
        forall|i: int|
            0 <= i < g.listens.len() && (#[trigger] g.listens[i]) is Some && !t.contains(
                g.listens[i]->0.cell,
            ) ==> listen_refers(h, g.listens[i]->0.cell),
        forall|f: int, d: usize| #[trigger] call_refers_at(g, f, d) && !t.contains(d) ==> call_refers(h, d),
    ensures
        cells_held_except(h, s.union(t)),
{
    assert forall|d: usize| #[trigger] live_cell(h, d) && !s.union(t).contains(d) implies cell_referenced(h, d) by {
        assert(live_cell(g, d));
        assert(cell_referenced(g, d));
        if pending_refers(g, d) {
            let i = choose|i: int| 0 <= i < g.pending.len() && (#[trigger] g.pending[i]).cell == d;
            assert(pending_refers(h, g.pending[i].cell));
        } else if listen_refers(g, d) {
            let i = choose|i: int|
                0 <= i < g.listens.len() && (#[trigger] g.listens[i]) is Some && g.listens[i]->0.cell == d;
            assert(listen_refers(h, g.listens[i]->0.cell));
        } else if call_refers(g, d) {
            let f = choose|f: int| call_refers_at(g, f, d);
            assert(call_refers_at(g, f, d));
        }
    }
}

/// A change that keeps the waits and the listeners and every reference of
/// a running call, and frees no cell and drops no guard outside `t`, keeps
/// the cells held but those in `t`.
proof fn lemma_held_keep_refs<V>(g: GuestView<V>, h: GuestView<V>, s: Set<usize>, t: Set<usize>)
    requires
        cells_held_except(g, s),
        h.pending == g.pending,
        h.listens == g.listens,
        forall|f: int, c: usize| #[trigger] call_refers_at(g, f, c) ==> call_refers_at(h, f, c),
        forall|d: usize|
            #[trigger] live_cell(h, d) && !t.contains(d) ==> live_cell(g, d) && (
            g.cells[d as int]->0.guarded ==> h.cells[d as int]->0.guarded),
    ensures
        cells_held_except(h, s.union(t)),
{
    assert forall|i: int| 0 <= i < g.pending.len() && !t.contains((#[trigger] g.pending[i]).cell) implies pending_refers(
        h,
        g.pending[i].cell,
    ) by {
        assert(h.pending[i] == g.pending[i]);
    }
    assert forall|i: int|
        0 <= i < g.listens.len() && (#[trigger] g.listens[i]) is Some && !t.contains(
            g.listens[i]->0.cell,
        ) implies listen_refers(h, g.listens[i]->0.cell) by {
        assert(h.listens[i] == g.listens[i]);
    }
    assert forall|f: int, d: usize| #[trigger] call_refers_at(g, f, d) && !t.contains(d) implies call_refers(h, d) by {
        assert(call_refers_at(h, f, d));
    }
    lemma_held_persist(g, h, s, t);
}

/// A change that keeps the waits and the listeners and every reference of
/// a running call, and frees no cell and drops no guard, keeps the cells
/// held.
proof fn lemma_held_same_refs<V>(g: GuestView<V>, h: GuestView<V>, s: Set<usize>)
    requires
        cells_held_except(g, s),
        h.pending == g.pending,
        h.listens == g.listens,
        forall|f: int, c: usize| #[trigger] call_refers_at(g, f, c) ==> call_refers_at(h, f, c),
        forall|d: usize|
            #[trigger] live_cell(h, d) ==> live_cell(g, d) && (g.cells[d as int]->0.guarded
                ==> h.cells[d as int]->0.guarded),
    ensures
        cells_held_except(h, s),
{
    lemma_held_keep_refs(g, h, s, Set::empty());
    assert(s.union(Set::<usize>::empty()) =~= s);
}

/// A listener that leaves, with the waits kept, the references of running
/// calls kept and no cell freed and no guard dropped, leaves every live
/// cell held but its own.
proof fn lemma_listen_leaves<V>(g: GuestView<V>, h: GuestView<V>, state: int)
    requires
        cells_held_except(g, Set::empty()),
        0 <= state < g.listens.len(),
        g.listens[state] is Some,
        h.pending == g.pending,
        h.listens == g.listens.update(state, None),
        forall|f: int, c: usize| #[trigger] call_refers_at(g, f, c) ==> call_refers_at(h, f, c),
        forall|d: usize|
            #[trigger] live_cell(h, d) ==> live_cell(g, d) && (g.cells[d as int]->0.guarded
                ==> h.cells[d as int]->0.guarded),
    ensures
        cells_held_except(h, set![g.listens[state]->0.cell]),
{
    let t = set![g.listens[state]->0.cell];
    assert forall|i: int| 0 <= i < g.pending.len() && !t.contains((#[trigger] g.pending[i]).cell) implies pending_refers(
        h,
        g.pending[i].cell,
    ) by {
        assert(h.pending[i] == g.pending[i]);
    }
    assert forall|i: int|
        0 <= i < g.listens.len() && (#[trigger] g.listens[i]) is Some && !t.contains(
            g.listens[i]->0.cell,
        ) implies listen_refers(h, g.listens[i]->0.cell) by {
        assert(i != state);
        assert(h.listens[i] == g.listens[i]);
    }
    assert forall|f: int, d: usize| #[trigger] call_refers_at(g, f, d) && !t.contains(d) implies call_refers(h, d) by {
        assert(call_refers_at(h, f, d));
    }
    lemma_held_persist(g, h, Set::empty(), t);
    assert(Set::<usize>::empty().union(t) =~= t);
}

/// The cells that the waits of `ps` from position `from` on refer to.
pub open spec fn cells_from(ps: Seq<PendingView>, from: int) -> Set<usize> {
    Set::new(|c: usize| exists|i: int| from <= i < ps.len() && (#[trigger] ps[i]).cell == c)
}

/// Letting go of a cell leaves it held or gone.
proof fn lemma_release_cell_held<V>(g: GuestView<V>, c: usize, s: Set<usize>)
    requires
        cells_held_except(g, s),
    ensures
        cells_held_except(release_cell(g, c), s.remove(c)),
{
    let r = release_cell(g, c);
    assert forall|d: usize| #[trigger] live_cell(r, d) && !s.remove(c).contains(d) implies cell_referenced(r, d) by {
        lemma_refs_same(g, r, d);
        assert(live_cell(g, d));
        if d != c {
            assert(cell_referenced(g, d));
        }
    }
}

/// Letting go of cells leaves each of them held or gone.
proof fn lemma_release_cells_held<V>(g: GuestView<V>, cs: Seq<usize>, s: Set<usize>)
    requires
        cells_held_except(g, s),
    ensures
        cells_held_except(release_cells(g, cs), s.difference(cs.to_set())),
    decreases cs.len(),
{
    if cs.len() == 0 {
        assert(s.difference(cs.to_set()) =~= s);
    } else {
        let rest = cs.drop_last();
        lemma_release_cells_held(g, rest, s);
        lemma_release_cell_held(release_cells(g, rest), cs.last(), s.difference(rest.to_set()));
        assert(s.difference(rest.to_set()).remove(cs.last()) =~= s.difference(cs.to_set())) by {
            assert forall|x: usize| cs.contains(x) <==> rest.contains(x) || x == cs.last() by {
                if cs.contains(x) {
                    let k = choose|k: int| 0 <= k < cs.len() && cs[k] == x;
                    if k < cs.len() - 1 {
                        assert(rest[k] == x);
                    }
                }
                if rest.contains(x) {
                    let k = choose|k: int| 0 <= k < rest.len() && rest[k] == x;
                    assert(cs[k] == x);
                }
                if x == cs.last() {
                    assert(cs[cs.len() - 1] == x);
                }
            }
        }
    }
}

/// Letting go of every cell that may have lost its last reference leaves
/// every live cell held.
proof fn lemma_release_cells_all_held<V>(g: GuestView<V>, cs: Seq<usize>, s: Set<usize>)
    requires
        cells_held_except(g, s),
        forall|c: usize| s.contains(c) ==> cs.contains(c),
    ensures
        cells_held_except(release_cells(g, cs), Set::empty()),
{
    lemma_release_cells_held(g, cs, s);
    assert(s.difference(cs.to_set()) =~= Set::<usize>::empty());
}

/// The state after the cells were cancelled one after the other.
pub open spec fn cancel_cells<V>(g: GuestView<V>, cells: Seq<usize>) -> GuestView<V>
    decreases cells.len(),
{
    if cells.len() == 0 {
        g
    } else {
        cancel_cell(cancel_cells(g, cells.drop_last()), cells.last())
    }
}

/// The state after a listener was created for call `f` from the registered
/// wait `p`, and the host was told to listen.
pub open spec fn push_listen<V>(g: GuestView<V>, f: u32, p: PendingView) -> GuestView<V> {
    let l = first_free(g.listens);
    GuestView {
        listens: set_slot(g.listens, l, ListenView { future: f, cell: p.cell, tx: p.tx }),
        output: g.output.push(PollOutput::Listen { state: l as u32, pending: p.pending }),
        ..g
    }
}

/// The state after a listener was created for each wait in `ps`, in order.
pub open spec fn push_listen_all<V>(g: GuestView<V>, f: u32, ps: Seq<PendingView>) -> GuestView<V>
    decreases ps.len(),
{
    if ps.len() == 0 {
        g
    } else {
        push_listen(push_listen_all(g, f, ps.drop_last()), f, ps.last())
    }
}

/// Handing waits to the host touches only the listeners and the outputs.
proof fn lemma_push_listen_all_frame<V>(g: GuestView<V>, f: u32, ps: Seq<PendingView>)
    ensures
        push_listen_all(g, f, ps) == (GuestView {
            listens: push_listen_all(g, f, ps).listens,
            output: push_listen_all(g, f, ps).output,
            ..g
        }),
    decreases ps.len(),
{
    if ps.len() > 0 {
        lemma_push_listen_all_frame(g, f, ps.drop_last());
    }
}

/// Cancelling cells leaves every one of them cancelled, whatever their
/// order and repetitions, and leaves the other cells alone; the outputs it
/// adds come after the earlier ones and each tells the host to stop
/// listening.
pub proof fn law_cancelled_cells_end_cancelled<V>(g: GuestView<V>, cs: Seq<usize>)
    requires
        forall|k: int| 0 <= k < cs.len() ==> live_cell(g, #[trigger] cs[k]),
    ensures
        ({
            let r = cancel_cells(g, cs);
            &&& r == (GuestView { cells: r.cells, output: r.output, ..g })
            &&& r.cells.len() == g.cells.len()
            &&& forall|k: int|
                0 <= k < cs.len() ==> r.cells[#[trigger] cs[k] as int] == Some(
                    Cell { state: CancelState::Cancel, ..g.cells[cs[k] as int]->0 },
                )
            &&& forall|c: int|
                0 <= c < g.cells.len() && !cs.contains(c as usize) ==> #[trigger] r.cells[c]
                    == g.cells[c]
            &&& r.output.len() >= g.output.len()
            &&& r.output.subrange(0, g.output.len() as int) == g.output
            &&& forall|i: int| g.output.len() <= i < r.output.len() ==> #[trigger] r.output[i] is Cancel
        }),
    decreases cs.len(),
{
    if cs.len() > 0 {
        let rest = cs.drop_last();
        assert forall|k: int| 0 <= k < rest.len() implies live_cell(g, #[trigger] rest[k]) by {
            assert(rest[k] == cs[k]);
        }
        law_cancelled_cells_end_cancelled(g, rest);
        let mid = cancel_cells(g, rest);
        let r = cancel_cells(g, cs);
        assert(r == cancel_cell(mid, cs.last()));
        assert(live_cell(g, cs[cs.len() - 1]));
        let last = cs.last();
        assert(mid.cells[last as int] is Some && mid.cells[last as int]->0.guarded == g.cells[last as int]->0.guarded) by {
            if rest.contains(last) {
                let k = choose|k: int| 0 <= k < rest.len() && rest[k] == last;
                assert(mid.cells[rest[k] as int] == Some(
                    Cell { state: CancelState::Cancel, ..g.cells[rest[k] as int]->0 },
                ));
            }
        }
        assert forall|k: int| 0 <= k < cs.len() implies r.cells[#[trigger] cs[k] as int] == Some(
            Cell { state: CancelState::Cancel, ..g.cells[cs[k] as int]->0 },
        ) by {
            if k < cs.len() - 1 {
                assert(rest[k] == cs[k]);
            }
        }
        assert forall|c: int| 0 <= c < g.cells.len() && !cs.contains(c as usize) implies #[trigger] r.cells[c]
            == g.cells[c] by {
            if rest.contains(c as usize) {
                let k = choose|k: int| 0 <= k < rest.len() && rest[k] == c as usize;
                assert(cs[k] == c as usize);
            }
            assert(cs[cs.len() - 1] != c as usize);
        }
        assert(r.output.subrange(0, g.output.len() as int) =~= g.output) by {
            assert(mid.output.subrange(0, g.output.len() as int) == g.output);
        }
    } else {
        assert(g.output.subrange(0, g.output.len() as int) =~= g.output);
    }
}

/// Cancelling the same cells a second time tells the host nothing more.
pub proof fn law_cancelling_twice_is_silent<V>(g: GuestView<V>, cs: Seq<usize>)
    requires
        forall|k: int| 0 <= k < cs.len() ==> live_cell(g, #[trigger] cs[k]),
    ensures
        cancel_cells(cancel_cells(g, cs), cs).output == cancel_cells(g, cs).output,
        cancel_cells(cancel_cells(g, cs), cs).cells == cancel_cells(g, cs).cells,
{
    law_cancelled_cells_end_cancelled(g, cs);
    let once = cancel_cells(g, cs);
    assert forall|k: int| 0 <= k < cs.len() implies live_cell(once, #[trigger] cs[k]) && once.cells[cs[k] as int]->0.state
        == CancelState::Cancel by {
        assert(once.cells[cs[k] as int] == Some(
            Cell { state: CancelState::Cancel, ..g.cells[cs[k] as int]->0 },
        ));
    }
    lemma_cancel_cancelled(once, cs, cs);
}

/// Cancelling cells that are all cancelled already changes nothing.
proof fn lemma_cancel_cancelled<V>(g: GuestView<V>, cs: Seq<usize>, all: Seq<usize>)
    requires
        forall|k: int|
            0 <= k < all.len() ==> live_cell(g, #[trigger] all[k]) && g.cells[all[k] as int]->0.state
                == CancelState::Cancel,
        forall|k: int| 0 <= k < cs.len() ==> all.contains(#[trigger] cs[k]),
    ensures
        cancel_cells(g, cs).output == g.output,
        cancel_cells(g, cs).cells == g.cells,
    decreases cs.len(),
{
    if cs.len() > 0 {
        let rest = cs.drop_last();
        assert forall|k: int| 0 <= k < rest.len() implies all.contains(#[trigger] rest[k]) by {
            assert(cs[k] == rest[k]);
        }
        lemma_cancel_cancelled(g, rest, all);
        assert(all.contains(cs.last()));
        let k = choose|k: int| 0 <= k < all.len() && all[k] == cs.last();
        assert(live_cell(g, all[k]));
        assert(g.cells.update(
            cs.last() as int,
            Some(Cell { state: CancelState::Cancel, ..g.cells[cs.last() as int]->0 }),
        ) =~= g.cells);
    }
}

/// Handing waits to the host announces each of them once, in order, with
/// a listen output that carries its pending handle and the key of a new
/// listener that waits, on behalf of the call, on the wait's cell.
pub proof fn law_each_wait_is_listened_once<V>(g: GuestView<V>, f: u32, ps: Seq<PendingView>)
    requires
        g.listens.len() + ps.len() <= u32::MAX,
    ensures
        ({
            let r = push_listen_all(g, f, ps);
            &&& r.output.len() == g.output.len() + ps.len()
            &&& r.output.subrange(0, g.output.len() as int) == g.output
            &&& forall|i: int|
                0 <= i < ps.len() ==> {
                    let out = #[trigger] r.output[g.output.len() + i];
                    &&& out is Listen
                    &&& out->Listen_pending == ps[i].pending
                    &&& out->Listen_state < r.listens.len()
                    &&& r.listens[out->Listen_state as int] == Some(ListenView { future: f, cell: ps[i].cell, tx: ps[i].tx })
                }
            &&& g.listens.len() <= r.listens.len() <= g.listens.len() + ps.len()
            &&& forall|j: int| 0 <= j < g.listens.len() && (#[trigger] g.listens[j]) is Some ==> r.listens[j] == g.listens[j]
        }),
    decreases ps.len(),
{
    if ps.len() > 0 {
        let rest = ps.drop_last();
        law_each_wait_is_listened_once(g, f, rest);
        let mid = push_listen_all(g, f, rest);
        let r = push_listen_all(g, f, ps);
        let l = first_free(mid.listens);
        lemma_first_free_exists(mid.listens);
        assert(r.output.subrange(0, g.output.len() as int) =~= g.output) by {
            assert(mid.output.subrange(0, g.output.len() as int) == g.output);
        }
        assert forall|i: int| 0 <= i < ps.len() implies {
            let out = #[trigger] r.output[g.output.len() + i];
            &&& out is Listen
            &&& out->Listen_pending == ps[i].pending
            &&& out->Listen_state < r.listens.len()
            &&& r.listens[out->Listen_state as int] == Some(ListenView { future: f, cell: ps[i].cell, tx: ps[i].tx })
        } by {
            if i < ps.len() - 1 {
                assert(rest[i] == ps[i]);
                let out = mid.output[g.output.len() + i];
                assert(r.output[g.output.len() + i] == out);
                assert(mid.listens[out->Listen_state as int] is Some);
                assert(out->Listen_state != l);
            } else {
                assert(ps.last() == ps[i]);
                assert(l < u32::MAX);
            }
        }
    }
}

/// Some slot is free at or before any free slot, so a first free slot
/// exists.
proof fn lemma_first_none<T>(s: Seq<Option<T>>, i: int)
    requires
        0 <= i < s.len(),
        s[i] is None,
    ensures
        exists|j: int| is_first_free(s, j),
    decreases i,
{
    if exists|j: int| 0 <= j < i && s[j] is None {
        let j = choose|j: int| 0 <= j < i && s[j] is None;
        lemma_first_none(s, j);
    } else {
        assert(is_first_free(s, i));
    }
}

/// Every sequence of slots has a first free slot.
proof fn lemma_first_free_exists<T>(s: Seq<Option<T>>)
    ensures
        is_first_free(s, first_free(s)),
{
    if exists|i: int| 0 <= i < s.len() && s[i] is None {
        let i0 = choose|i: int| 0 <= i < s.len() && s[i] is None;
        lemma_first_none(s, i0);
    } else {
        assert(is_first_free(s, s.len() as int));
    }
}

/// The registered waits of call `f` handed to the host: one listener and
/// one listen output each, in order; none is left registered.
pub open spec fn push_listens_spec<V>(g: GuestView<V>, f: u32) -> GuestView<V> {
    GuestView { pending: Seq::empty(), ..push_listen_all(g, f, g.pending) }
}

/// The state after the registered waits were given up: their pending
/// handles are dropped, in order, and their cells let go of.
pub open spec fn clear_pending_spec<V>(g: GuestView<V>) -> GuestView<V> {
    release_cells(
        GuestView {
            pending: Seq::empty(),
            dropped: g.dropped + g.pending.map_values(|p: PendingView| p.pending),
            ..g
        },
        g.pending.map_values(|p: PendingView| p.cell),
    )
}

/// A call as it is when it first did not finish: its pending handle is out
/// and its ready handle is kept, and nothing listens for it yet.
pub open spec fn new_future<V>(ready: u32) -> FutureView<V> {
    FutureView {
        pending_handle: true,
        ready_handle: false,
        polling: false,
        state: FutureStateView::Pending { ready: Some(ready), cancel_states: Seq::empty() },
    }
}

/// The outcome of polling a guest call for the first time.
pub enum FirstPoll<T> {
    /// It finished with this result.
    Ready(T),
    /// It did not finish; the host made a task for it with these handles.
    Pending { pending: u32, cancel: u32, ready: u32 },
}

/// A guest call that did not finish at once: the handle the host waits on,
/// and the guest's key for the call.
#[derive(Clone, Copy, Debug, PartialEq, Eq, Structural)]
pub struct PendingCall {
    pub pending: u32,
    pub future: u32,
}

/// What the first poll of a call leads to: when it finished, the registered
/// waits are given up; when it did not, the call is stored under the first
/// free key, its waits are handed to the host, and the host is told that
/// the call is pending.
pub open spec fn first_poll_spec<V, T>(g: GuestView<V>, outcome: FirstPoll<T>) -> (GuestView<V>, Result<T, PendingCall>) {
    match outcome {
        FirstPoll::Ready(v) => (clear_pending_spec(g), Ok(v)),
        FirstPoll::Pending { pending, cancel, ready } => {
            let f = first_free(g.futures);
            let stored = GuestView { futures: set_slot(g.futures, f, new_future(ready)), ..g };
            let listened = push_listens_spec(stored, f as u32);
            (
                GuestView {
                    output: listened.output.push(PollOutput::Pending { cancel, state: f as u32 }),
                    ..listened
                },
                Err(PendingCall { pending, future: f as u32 }),
            )
        },
    }
}


/// Whether `key` names a live listener.
pub open spec fn live_listen<V>(g: GuestView<V>, key: u32) -> bool {
    key < g.listens.len() && g.listens[key as int] is Some
}

/// The inputs a guest can act on: inputs about listeners name live ones,
/// the host only starts listening on a wait that is not listened to yet and,
/// while the wait is registered, on behalf of a running call; it cancels
/// only a live call that has not been cancelled, whose pending handle it
/// still holds.
pub open spec fn input_ok<V>(g: GuestView<V>, input: PollInput) -> bool {
    match input {
        PollInput::Listening { state, .. } => {
            let l = g.listens[state as int]->0;
            &&& live_listen(g, state)
            &&& !(g.cells[l.cell as int]->0.state is Listening)
            &&& g.cells[l.cell as int]->0.state is Pending ==> g.futures[l.future as int]->0.state is Pending
        },
        PollInput::Ready { state, .. } => live_listen(g, state),
        PollInput::Cancel { state, .. } => {
            &&& state < g.futures.len()
            &&& g.futures[state as int] is Some
            &&& g.futures[state as int]->0.pending_handle
            &&& !(g.futures[state as int]->0.state is Cancelled)
        },
        PollInput::CancelComplete(state) => live_listen(g, state),
    }
}

/// The state after the wait of listener `state` finished with `ready`,
/// before its cell is let go of: the listener leaves, its cell is
/// cancelled, the ready handle is given up when the wait was cancelled (and
/// is handed on to the wait otherwise, see `delivery`), a listening host's
/// cancel handle is given up, and the call is queued to be polled.
pub open spec fn wake<V>(g: GuestView<V>, state: u32, ready: u32) -> GuestView<V> {
    let l = g.listens[state as int]->0;
    let cell = g.cells[l.cell as int]->0.state;
    let sent = if cell is Cancel {
        g.dropped.push(ready)
    } else {
        g.dropped
    };
    let dropped = match cell {
        CancelState::Listening(c) => sent.push(c),
        _ => sent,
    };
    let queued = g.pollables.contains(l.future);
    let e = g.futures[l.future as int]->0;
    GuestView {
        listens: g.listens.update(state as int, None),
        cells: g.cells.update(
            l.cell as int,
            Some(Cell { state: CancelState::Cancel, ..g.cells[l.cell as int]->0 }),
        ),
        dropped,
        pollables: if queued {
            g.pollables
        } else {
            g.pollables.push(l.future)
        },
        futures: if queued {
            g.futures
        } else {
            g.futures.update(l.future as int, Some(FutureView { polling: true, ..e }))
        },
        ..g
    }
}

/// What one input from the host hands on to a wait: a finished task's
/// ready handle goes, through the sender of the listener's own wait, to
/// that wait, unless the wait was cancelled.
pub open spec fn delivery<V>(g: GuestView<V>, input: PollInput) -> Option<(Sender<u32>, u32)> {
    match input {
        PollInput::Ready { state, ready } => {
            let l = g.listens[state as int]->0;
            if g.cells[l.cell as int]->0.state is Cancel {
                None
            } else {
                Some((l.tx, ready))
            }
        },
        _ => None,
    }
}

/// What the guest makes of one input from the host, and which call it
/// abandons, if any.
pub open spec fn input_step<V>(g: GuestView<V>, input: PollInput) -> (GuestView<V>, Option<u32>) {
    match input {
        PollInput::Listening { state, cancel } => {
            let l = g.listens[state as int]->0;
            if g.cells[l.cell as int]->0.state is Pending {
                let e = g.futures[l.future as int]->0;
                let listened = FutureView {
                    state: FutureStateView::Pending {
                        ready: e.state->ready,
                        cancel_states: e.state->cancel_states.push(l.cell),
                    },
                    ..e
                };
                (
                    GuestView {
                        cells: g.cells.update(
                            l.cell as int,
                            Some(Cell { state: CancelState::Listening(cancel), ..g.cells[l.cell as int]->0 }),
                        ),
                        futures: g.futures.update(l.future as int, Some(listened)),
                        ..g
                    },
                    None,
                )
            } else {
                (GuestView { output: g.output.push(PollOutput::Cancel(cancel)), ..g }, None)
            }
        },
        PollInput::Ready { state, ready } => {
            (release_cell(wake(g, state, ready), g.listens[state as int]->0.cell), None)
        },
        PollInput::Cancel { state, cancel } => {
            let e = g.futures[state as int]->0;
            let cancelled = GuestView {
                futures: g.futures.update(
                    state as int,
                    Some(
                        FutureView {
                            pending_handle: false,
                            state: FutureStateView::Cancelled(Some(cancel)),
                            ..e
                        },
                    ),
                ),
                ..g
            };
            match e.state {
                FutureStateView::Pending { ready, cancel_states } => {
                    let done = cancel_cells(cancelled, cancel_states);
                    let released = release_cells(
                        GuestView { dropped: done.dropped.push(ready->0), ..done },
                        cancel_states,
                    );
                    (collect(released, state), Some(state))
                },
                _ => (collect(cancelled, state), None),
            }
        },
        PollInput::CancelComplete(state) => {
            let l = g.listens[state as int]->0;
            (
                collect(
                    release_cell(GuestView { listens: g.listens.update(state as int, None), ..g }, l.cell),
                    l.future,
                ),
                None,
            )
        },
    }
}

/// Cancelling cells changes nothing but the cells and the outputs, and
/// depends on nothing else.
proof fn lemma_cancel_cells_frame<V>(g: GuestView<V>, h: GuestView<V>, cs: Seq<usize>)
    requires
        g.cells == h.cells,
        g.output == h.output,
    ensures
        cancel_cells(g, cs) == (GuestView {
            cells: cancel_cells(g, cs).cells,
            output: cancel_cells(g, cs).output,
            ..g
        }),
        cancel_cells(h, cs).cells == cancel_cells(g, cs).cells,
        cancel_cells(h, cs).output == cancel_cells(g, cs).output,
    decreases cs.len(),
{
    if cs.len() > 0 {
        lemma_cancel_cells_frame(g, h, cs.drop_last());
    }
}

/// Well-formedness does not depend on the outputs and the handles given up.
proof fn lemma_wf_frame<V>(g: GuestView<V>, h: GuestView<V>)
    requires
        guest_wf(g),
        h == (GuestView { output: h.output, dropped: h.dropped, ..g }),
    ensures
        guest_wf(h),
{
    assert forall|f: int| 0 <= f < h.futures.len() && (#[trigger] h.futures[f]) is Some implies referenced(h, f as u32) by {
        assert(referenced(g, f as u32));
    }
    assert forall|f: int, d: usize| #[trigger] call_refers_at(h, f, d) implies live_cell(h, d) by {
        assert(call_refers_at(g, f, d));
    }
    lemma_held_same_refs(g, h, Set::empty());
}

/// Giving up the registered waits changes only the waits, the handles
/// given up and the cells.
proof fn lemma_clear_pending_frame<V>(g: GuestView<V>)
    ensures
        clear_pending_spec(g) == (GuestView {
            pending: Seq::empty(),
            dropped: g.dropped + g.pending.map_values(|p: PendingView| p.pending),
            cells: clear_pending_spec(g).cells,
            ..g
        }),
        clear_pending_spec(g).cells.len() == g.cells.len(),
{
    lemma_release_cells_frame(
        GuestView {
            pending: Seq::empty(),
            dropped: g.dropped + g.pending.map_values(|p: PendingView| p.pending),
            ..g
        },
        g.pending.map_values(|p: PendingView| p.cell),
    );
}

/// `futures::channel::oneshot::Sender::send`: hands the value to the
/// receiving half, or gives it back when that half is gone.
#[verifier::external_body]
fn send_ready(tx: Sender<u32>, ready: u32) -> (r: Result<(), u32>)
    ensures
        r matches Err(v) ==> v == ready,
{
    tx.send(ready)
}


/// The state after call `f`, at the front of the poll queue, left the
/// queue.
pub open spec fn dequeue<V>(g: GuestView<V>, f: u32) -> GuestView<V> {
    GuestView {
        pollables: g.pollables.drop_first(),
        futures: g.futures.update(f as int, Some(FutureView { polling: false, ..g.futures[f as int]->0 })),
        ..g
    }
}

/// The state after the call at the front of the poll queue left the queue
/// without being polled, and was let go of.
pub open spec fn settle<V>(g: GuestView<V>, f: u32) -> GuestView<V> {
    collect(dequeue(g, f), f)
}

/// Taking the front of the poll queue keeps the shape and the cells, and
/// every call but the one taken stays referred to.
proof fn lemma_dequeue<V>(g: GuestView<V>, s: Set<usize>)
    requires
        guest_shape(g),
        referenced_except(g, None),
        cells_ok(g),
        cells_held_except(g, s),
        g.pollables.len() > 0,
    ensures
        guest_shape(dequeue(g, g.pollables[0])),
        referenced_except(dequeue(g, g.pollables[0]), Some(g.pollables[0])),
        cells_ok(dequeue(g, g.pollables[0])),
        cells_held_except(dequeue(g, g.pollables[0]), s),
{
    let f = g.pollables[0];
    let g1 = dequeue(g, f);
    assert(g.futures[f as int] is Some);
    assert(!g1.pollables.contains(f)) by {
        if g1.pollables.contains(f) {
            let k = choose|k: int| 0 <= k < g1.pollables.len() && g1.pollables[k] == f;
            assert(g.pollables[k + 1] == g.pollables[0]);
        }
    }
    assert(guest_shape(g1)) by {
        assert forall|h: int| 0 <= h < g1.futures.len() && (#[trigger] g1.futures[h]) is Some implies (g1.futures[h]->0.polling <==> g1.pollables.contains(h as u32)) by {
            assert(g.futures[h] is Some);
            let hu = h as u32;
            if g.pollables.contains(hu) && h != f {
                let k = choose|k: int| 0 <= k < g.pollables.len() && g.pollables[k] == hu;
                assert(k != 0);
                assert(g1.pollables[k - 1] == hu);
            }
            if g1.pollables.contains(hu) {
                let k = choose|k: int| 0 <= k < g1.pollables.len() && g1.pollables[k] == hu;
                assert(g.pollables[k + 1] == hu);
            }
        }
        assert forall|k: int| 0 <= k < g1.pollables.len() implies {
            let q = #[trigger] g1.pollables[k];
            &&& q < g1.futures.len()
            &&& g1.futures[q as int] is Some
        } by {
            assert(g.pollables[k + 1] == g1.pollables[k]);
        }
        assert(g1.pollables.no_duplicates()) by {
            assert forall|i: int, j: int| 0 <= i < g1.pollables.len() && 0 <= j < g1.pollables.len() && i != j implies g1.pollables[i] != g1.pollables[j] by {
                assert(g.pollables[i + 1] == g1.pollables[i]);
                assert(g.pollables[j + 1] == g1.pollables[j]);
            }
        }
    }
    assert(cells_ok(g1)) by {
        assert forall|h: int, d: usize| #[trigger] call_refers_at(g1, h, d) implies live_cell(g1, d) by {
            assert(call_refers_at(g, h, d));
        }
    }
    assert forall|h: int, d: usize| #[trigger] call_refers_at(g, h, d) implies call_refers_at(g1, h, d) by {}
    lemma_held_same_refs(g, g1, s);
    assert(referenced_except(g1, Some(f))) by {
        assert forall|h: int| 0 <= h < g1.futures.len() && (#[trigger] g1.futures[h]) is Some && Some(f) != Some(h as u32) implies referenced(g1, h as u32) by {
            assert(g.futures[h] is Some);
            assert(referenced(g, h as u32));
            if g.futures[h]->0.polling {
                assert(g.pollables.contains(h as u32));
                let k = choose|k: int| 0 <= k < g.pollables.len() && g.pollables[k] == h as u32;
                assert(k != 0);
                assert(g1.pollables[k - 1] == h as u32);
            }
        }
    }
}

/// The state after the calls at the front of the poll queue that no longer
/// run were let go of, up to the first that still runs.
pub open spec fn skip_settled<V>(g: GuestView<V>) -> GuestView<V>
    decreases g.pollables.len(),
{
    if g.pollables.len() == 0 {
        g
    } else if g.futures[g.pollables[0] as int]->0.state is Pending {
        g
    } else {
        skip_settled(settle(g, g.pollables[0]))
    }
}

/// The outcome of polling a running guest call again.
pub enum Polled<V> {
    /// It finished with this result.
    Ready(V),
    /// It still runs, waiting for what it registered.
    Pending,
}

/// What polling the call at the front of the poll queue leads to: a call
/// that still runs hands its new waits to the host; a finished call gives
/// up the registered waits, keeps its result, cancels its listeners and
/// reports its ready handle with its key. Either way it leaves the queue.
pub open spec fn after_poll_spec<V>(g: GuestView<V>, outcome: Polled<V>) -> GuestView<V> {
    let f = g.pollables[0];
    match outcome {
        Polled::Pending => {
            let g1 = push_listens_spec(g, f);
            GuestView {
                pollables: g1.pollables.drop_first(),
                futures: g1.futures.update(
                    f as int,
                    Some(FutureView { polling: false, ..g1.futures[f as int]->0 }),
                ),
                ..g1
            }
        },
        Polled::Ready(v) => {
            let g1 = clear_pending_spec(g);
            let e = g1.futures[f as int]->0;
            let g2 = GuestView {
                pollables: g1.pollables.drop_first(),
                futures: g1.futures.update(
                    f as int,
                    Some(
                        FutureView {
                            ready_handle: true,
                            polling: false,
                            state: FutureStateView::Ready(Some(v)),
                            ..e
                        },
                    ),
                ),
                ..g1
            };
            let g3 = cancel_cells(g2, e.state->cancel_states);
            release_cells(
                GuestView {
                    output: g3.output.push(PollOutput::Ready { state: f, ready: e.state->ready->0 }),
                    ..g3
                },
                e.state->cancel_states,
            )
        },
    }
}

/// The result that a finished call keeps, if any.
pub open spec fn kept_result<V>(e: FutureView<V>) -> Option<V> {
    match e.state {
        FutureStateView::Ready(v) => v,
        _ => None,
    }
}


/// A first poll of a call that did not finish announces every registered
/// wait once, in order, then the pending call with its cancel handle and
/// key, and stores the call; a first poll of a call that finished announces
/// nothing and gives up the registered waits. Either way no wait stays
/// registered.
pub proof fn law_first_poll_announces_every_wait<V, T>(g: GuestView<V>, outcome: FirstPoll<T>)
    requires
        outcome is Pending ==> g.futures.len() < u32::MAX && g.listens.len() + g.pending.len() <= u32::MAX,
    ensures
        ({
            let (r, res) = first_poll_spec(g, outcome);
            &&& r.pending.len() == 0
            &&& match outcome {
                FirstPoll::Ready(v) => {
                    &&& res == Ok::<T, PendingCall>(v)
                    &&& r.output == g.output
                    &&& r.dropped == g.dropped + g.pending.map_values(|p: PendingView| p.pending)
                },
                FirstPoll::Pending { pending, cancel, ready } => {
                    &&& res is Err
                    &&& res->Err_0.pending == pending
                    &&& r.output.len() == g.output.len() + g.pending.len() + 1
                    &&& r.output.subrange(0, g.output.len() as int) == g.output
                    &&& r.output.last() == (PollOutput::Pending { cancel, state: res->Err_0.future })
                    &&& forall|i: int|
                        0 <= i < g.pending.len() ==> (#[trigger] r.output[g.output.len() + i]) is Listen
                            && r.output[g.output.len() + i]->Listen_pending == g.pending[i].pending
                    &&& r.futures[res->Err_0.future as int] == Some(new_future::<V>(ready))
                },
            }
        }),
{
    match outcome {
        FirstPoll::Ready(v) => {
            lemma_clear_pending_frame(g);
        },
        FirstPoll::Pending { pending, cancel, ready } => {
            let f = first_free(g.futures);
            lemma_first_free_exists(g.futures);
            let stored = GuestView { futures: set_slot(g.futures, f, new_future(ready)), ..g };
            law_each_wait_is_listened_once(stored, f as u32, stored.pending);
            lemma_push_listen_all_frame(stored, f as u32, stored.pending);
            let listened = push_listens_spec(stored, f as u32);
            let r = first_poll_spec(g, outcome).0;
            assert(r.output == listened.output.push(PollOutput::Pending { cancel, state: f as u32 }));
            assert(r.output.subrange(0, g.output.len() as int) =~= g.output) by {
                assert(listened.output.subrange(0, g.output.len() as int) == g.output);
            }
            assert forall|i: int| 0 <= i < g.pending.len() implies (#[trigger] r.output[g.output.len() + i]) is Listen
                && r.output[g.output.len() + i]->Listen_pending == g.pending[i].pending by {
                assert(r.output[g.output.len() + i] == listened.output[g.output.len() + i]);
            }
        },
    }
}

/// When the host cancels a call that nothing else refers to (no listener,
/// no poll, no ready handle out), the call leaves at once and the last
/// output reports the cancellation complete with the host's cancel handle.
pub proof fn law_cancel_of_unreferenced_call_completes<V>(g: GuestView<V>, state: u32, cancel: u32)
    requires
        guest_wf(g),
        input_ok(g, PollInput::Cancel { state, cancel }),
        !has_listeners(g.listens, state),
        !g.futures[state as int]->0.polling,
        !g.futures[state as int]->0.ready_handle,
    ensures
        ({
            let r = input_step(g, PollInput::Cancel { state, cancel }).0;
            &&& r.futures[state as int] is None
            &&& r.output.len() > 0
            &&& r.output.last() == PollOutput::CancelComplete(cancel)
        }),
{
    let e = g.futures[state as int]->0;
    let cancelled = GuestView {
        futures: g.futures.update(
            state as int,
            Some(FutureView { pending_handle: false, state: FutureStateView::Cancelled(Some(cancel)), ..e }),
        ),
        ..g
    };
    match e.state {
        FutureStateView::Pending { ready, cancel_states } => {
            lemma_cancel_cells_frame(cancelled, cancelled, cancel_states);
            let done = cancel_cells(cancelled, cancel_states);
            lemma_release_cells_frame(
                GuestView { dropped: done.dropped.push(ready->0), ..done },
                cancel_states,
            );
        },
        _ => {},
    }
}

/// A copy of `v`.
fn copy_cells(v: &Vec<usize>) -> (r: Vec<usize>)
    ensures
        r@ == v@,
{
    let mut r: Vec<usize> = Vec::new();
    let mut i: usize = 0;
    while i < v.len()
        invariant
            i <= v@.len(),
            r@ == v@.take(i as int),
        decreases v@.len() - i,
    {
        r.push(v[i]);
        assert(r@ =~= v@.take(i as int + 1));
        i = i + 1;
    }
    assert(v@.take(v@.len() as int) =~= v@);
    r
}

/// Whether `c` occurs in `v`.
fn contains_cell(v: &Vec<usize>, c: usize) -> (r: bool)
    ensures
        r == v@.contains(c),
{
    let mut i: usize = 0;
    while i < v.len()
        invariant
            i <= v@.len(),
            forall|j: int| 0 <= j < i ==> v@[j] != c,
        decreases v@.len() - i,
    {
        if v[i] == c {
            assert(v@[i as int] == c);
            return true;
        }
        i = i + 1;
    }
    false
}

/// A call that finished keeps its result for `get_ready`: after the call
/// at the front of the poll queue was polled to the result `v`, it is still
/// there, its ready handle is out, and `v` is the result it keeps.
pub proof fn law_finished_call_keeps_its_result<V>(g: GuestView<V>, v: V)
    requires
        guest_wf(g),
        g.pollables.len() > 0,
        g.futures[g.pollables[0] as int]->0.state is Pending,
    ensures
        ({
            let f = g.pollables[0];
            let r = after_poll_spec(g, Polled::Ready(v));
            &&& f < r.futures.len()
            &&& r.futures[f as int] is Some
            &&& r.futures[f as int]->0.ready_handle
            &&& kept_result(r.futures[f as int]->0) == Some(v)
        }),
{
    let f = g.pollables[0];
    lemma_clear_pending_frame(g);
    let g1 = clear_pending_spec(g);
    let e = g1.futures[f as int]->0;
    let g2 = GuestView {
        pollables: g1.pollables.drop_first(),
        futures: g1.futures.update(
            f as int,
            Some(
                FutureView {
                    ready_handle: true,
                    polling: false,
                    state: FutureStateView::Ready(Some(v)),
                    ..e
                },
            ),
        ),
        ..g1
    };
    let cs = e.state->cancel_states;
    lemma_cancel_cells_frame(g2, g2, cs);
    let g3 = cancel_cells(g2, cs);
    let g4 = GuestView {
        output: g3.output.push(PollOutput::Ready { state: f, ready: e.state->ready->0 }),
        ..g3
    };
    lemma_release_cells_frame(g4, cs);
    assert(g.futures[f as int] is Some);
}

/// The outputs of `h` are those of `g`, in order, followed by new ones.
pub open spec fn outputs_extend<V>(g: GuestView<V>, h: GuestView<V>) -> bool {
    &&& g.output.len() <= h.output.len()
    &&& h.output.subrange(0, g.output.len() as int) == g.output
}

proof fn lemma_extend_refl<V>(g: GuestView<V>)
    ensures
        outputs_extend(g, g),
{
    assert(g.output.subrange(0, g.output.len() as int) =~= g.output);
}

proof fn lemma_extend_push<V>(g: GuestView<V>, h: GuestView<V>, o: PollOutput)
    requires
        h.output == g.output.push(o),
    ensures
        outputs_extend(g, h),
{
    assert(h.output.subrange(0, g.output.len() as int) =~= g.output);
}

proof fn lemma_extend_trans<V>(a: GuestView<V>, b: GuestView<V>, c: GuestView<V>)
    requires
        outputs_extend(a, b),
        outputs_extend(b, c),
    ensures
        outputs_extend(a, c),
{
    assert(c.output.subrange(0, a.output.len() as int) =~= b.output.subrange(0, a.output.len() as int));
}

proof fn lemma_same_output_extends<V>(g: GuestView<V>, h: GuestView<V>)
    requires
        h.output == g.output,
    ensures
        outputs_extend(g, h),
{
    lemma_extend_refl(g);
}

proof fn lemma_cancel_cells_extend<V>(g: GuestView<V>, cs: Seq<usize>)
    ensures
        outputs_extend(g, cancel_cells(g, cs)),
    decreases cs.len(),
{
    if cs.len() == 0 {
        lemma_extend_refl(g);
    } else {
        let mid = cancel_cells(g, cs.drop_last());
        lemma_cancel_cells_extend(g, cs.drop_last());
        let r = cancel_cell(mid, cs.last());
        match mid.cells[cs.last() as int]->0.state {
            CancelState::Listening(c) => lemma_extend_push(mid, r, PollOutput::Cancel(c)),
            _ => lemma_same_output_extends(mid, r),
        }
        lemma_extend_trans(g, mid, r);
    }
}

proof fn lemma_push_listen_all_extend<V>(g: GuestView<V>, f: u32, ps: Seq<PendingView>)
    ensures
        outputs_extend(g, push_listen_all(g, f, ps)),
    decreases ps.len(),
{
    if ps.len() == 0 {
        lemma_extend_refl(g);
    } else {
        let mid = push_listen_all(g, f, ps.drop_last());
        lemma_push_listen_all_extend(g, f, ps.drop_last());
        let l = first_free(mid.listens);
        lemma_extend_push(mid, push_listen(mid, f, ps.last()), PollOutput::Listen { state: l as u32, pending: ps.last().pending });
        lemma_extend_trans(g, mid, push_listen(mid, f, ps.last()));
    }
}

proof fn lemma_collect_extend<V>(g: GuestView<V>, f: u32)
    ensures
        outputs_extend(g, collect(g, f)),
{
    if 0 <= f < g.futures.len() && g.futures[f as int] is Some && !referenced(g, f) {
        match g.futures[f as int]->0.state {
            FutureStateView::Cancelled(Some(c)) => lemma_extend_push(g, collect(g, f), PollOutput::CancelComplete(c)),
            _ => lemma_same_output_extends(g, collect(g, f)),
        }
    } else {
        lemma_extend_refl(g);
    }
}

proof fn lemma_skip_settled_extend<V>(g: GuestView<V>)
    ensures
        outputs_extend(g, skip_settled(g)),
    decreases g.pollables.len(),
{
    if g.pollables.len() == 0 || g.futures[g.pollables[0] as int]->0.state is Pending {
        lemma_extend_refl(g);
    } else {
        let d = dequeue(g, g.pollables[0]);
        lemma_same_output_extends(g, d);
        lemma_collect_extend(d, g.pollables[0]);
        lemma_extend_trans(g, d, settle(g, g.pollables[0]));
        lemma_collect_frame_pollables(d, g.pollables[0]);
        lemma_skip_settled_extend(settle(g, g.pollables[0]));
        lemma_extend_trans(g, settle(g, g.pollables[0]), skip_settled(g));
    }
}

proof fn lemma_collect_frame_pollables<V>(g: GuestView<V>, f: u32)
    ensures
        collect(g, f).pollables == g.pollables,
{
}

proof fn lemma_release_extend<V>(g: GuestView<V>, cs: Seq<usize>)
    ensures
        outputs_extend(g, release_cells(g, cs)),
{
    lemma_release_cells_frame(g, cs);
    lemma_same_output_extends(g, release_cells(g, cs));
}

/// Every step of the guest only adds outputs after those already queued:
/// nothing the guest has to tell the host is lost or reordered before
/// `take_output` hands the outputs over.
pub proof fn law_steps_only_add_outputs<V, T>(
    g: GuestView<V>,
    input: PollInput,
    polled: Polled<V>,
    outcome: FirstPoll<T>,
    cell: usize,
)
    ensures
        outputs_extend(g, input_step(g, input).0),
        g.pollables.len() > 0 ==> outputs_extend(g, after_poll_spec(g, polled)),
        outputs_extend(g, first_poll_spec(g, outcome).0),
        outputs_extend(g, skip_settled(g)),
        outputs_extend(g, drop_guard(g, cell)),
{
    lemma_skip_settled_extend(g);
    // input steps
    match input {
        PollInput::Listening { state, cancel } => {
            let r = input_step(g, input).0;
            if g.cells[g.listens[state as int]->0.cell as int]->0.state is Pending {
                lemma_same_output_extends(g, r);
            } else {
                lemma_extend_push(g, r, PollOutput::Cancel(cancel));
            }
        },
        PollInput::Ready { state, ready } => {
            let w = wake(g, state, ready);
            lemma_release_cell_frame(w, g.listens[state as int]->0.cell);
            lemma_same_output_extends(g, input_step(g, input).0);
        },
        PollInput::Cancel { state, cancel } => {
            let e = g.futures[state as int]->0;
            let cancelled = GuestView {
                futures: g.futures.update(
                    state as int,
                    Some(
                        FutureView {
                            pending_handle: false,
                            state: FutureStateView::Cancelled(Some(cancel)),
                            ..e
                        },
                    ),
                ),
                ..g
            };
            lemma_same_output_extends(g, cancelled);
            match e.state {
                FutureStateView::Pending { ready, cancel_states } => {
                    let done = cancel_cells(cancelled, cancel_states);
                    lemma_cancel_cells_extend(cancelled, cancel_states);
                    let dr = GuestView { dropped: done.dropped.push(ready->0), ..done };
                    lemma_same_output_extends(done, dr);
                    let released = release_cells(dr, cancel_states);
                    lemma_release_extend(dr, cancel_states);
                    lemma_collect_extend(released, state);
                    lemma_extend_trans(g, cancelled, done);
                    lemma_extend_trans(g, done, dr);
                    lemma_extend_trans(g, dr, released);
                    lemma_extend_trans(g, released, collect(released, state));
                },
                _ => {
                    lemma_collect_extend(cancelled, state);
                    lemma_extend_trans(g, cancelled, collect(cancelled, state));
                },
            }
        },
        PollInput::CancelComplete(state) => {
            let l = g.listens[state as int]->0;
            let g1 = GuestView { listens: g.listens.update(state as int, None), ..g };
            lemma_release_cell_frame(g1, l.cell);
            let g2 = release_cell(g1, l.cell);
            lemma_same_output_extends(g, g2);
            lemma_collect_extend(g2, l.future);
            lemma_extend_trans(g, g2, collect(g2, l.future));
        },
    }
    // first poll
    lemma_clear_pending_frame(g);
    lemma_same_output_extends(g, clear_pending_spec(g));
    match outcome {
        FirstPoll::Ready(v) => {},
        FirstPoll::Pending { pending, cancel, ready } => {
            let f = first_free(g.futures);
            let stored = GuestView { futures: set_slot(g.futures, f, new_future(ready)), ..g };
            lemma_push_listen_all_extend(stored, f as u32, stored.pending);
            let listened = push_listens_spec(stored, f as u32);
            lemma_same_output_extends(push_listen_all(stored, f as u32, stored.pending), listened);
            lemma_extend_trans(stored, push_listen_all(stored, f as u32, stored.pending), listened);
            let r = first_poll_spec(g, outcome).0;
            lemma_extend_push(listened, r, PollOutput::Pending { cancel, state: f as u32 });
            lemma_extend_trans(stored, listened, r);
        },
    }
    // a poll
    if g.pollables.len() > 0 {
        let f = g.pollables[0];
        match polled {
            Polled::Pending => {
                lemma_push_listen_all_extend(g, f, g.pending);
                let g1 = push_listens_spec(g, f);
                lemma_same_output_extends(push_listen_all(g, f, g.pending), g1);
                lemma_extend_trans(g, push_listen_all(g, f, g.pending), g1);
                lemma_same_output_extends(g1, after_poll_spec(g, polled));
                lemma_extend_trans(g, g1, after_poll_spec(g, polled));
            },
            Polled::Ready(v) => {
                let g1 = clear_pending_spec(g);
                let e = g1.futures[f as int]->0;
                let g2 = GuestView {
                    pollables: g1.pollables.drop_first(),
                    futures: g1.futures.update(
                        f as int,
                        Some(
                            FutureView {
                                ready_handle: true,
                                polling: false,
                                state: FutureStateView::Ready(Some(v)),
                                ..e
                            },
                        ),
                    ),
                    ..g1
                };
                let cs = e.state->cancel_states;
                lemma_same_output_extends(g, g2);
                let g3 = cancel_cells(g2, cs);
                lemma_cancel_cells_extend(g2, cs);
                let g4 = GuestView {
                    output: g3.output.push(PollOutput::Ready { state: f, ready: e.state->ready->0 }),
                    ..g3
                };
                lemma_extend_push(g3, g4, PollOutput::Ready { state: f, ready: e.state->ready->0 });
                lemma_release_extend(g4, cs);
                lemma_extend_trans(g, g2, g3);
                lemma_extend_trans(g, g3, g4);
                lemma_extend_trans(g, g4, release_cells(g4, cs));
            },
        }
    }
    // dropping a guard
    let c1 = cancel_cell(g, cell);
    match g.cells[cell as int]->0.state {
        CancelState::Listening(c) => lemma_extend_push(g, c1, PollOutput::Cancel(c)),
        _ => lemma_same_output_extends(g, c1),
    }
    let c2 = GuestView {
        cells: c1.cells.update(cell as int, Some(Cell { guarded: false, ..c1.cells[cell as int]->0 })),
        ..c1
    };
    lemma_release_cell_frame(c2, cell);
    lemma_same_output_extends(c1, release_cell(c2, cell));
    lemma_extend_trans(g, c1, release_cell(c2, cell));
}

proof fn lemma_cancel_cells_only_cancels<V>(g: GuestView<V>, cs: Seq<usize>)
    ensures
        outputs_extend(g, cancel_cells(g, cs)),
        forall|i: int|
            g.output.len() <= i < cancel_cells(g, cs).output.len() ==> (#[trigger] cancel_cells(
                g,
                cs,
            ).output[i]) is Cancel,
        cancel_cells(g, cs).futures == g.futures,
    decreases cs.len(),
{
    lemma_cancel_cells_extend(g, cs);
    if cs.len() > 0 {
        lemma_cancel_cells_only_cancels(g, cs.drop_last());
        let mid = cancel_cells(g, cs.drop_last());
        let r = cancel_cells(g, cs);
        assert forall|i: int| g.output.len() <= i < r.output.len() implies (#[trigger] r.output[i]) is Cancel by {
            if i < mid.output.len() {
                assert(r.output[i] == mid.output[i]);
            }
        }
    }
}

/// What letting go of call `f` reports: at most one output, a completed
/// cancellation with the call's own cancel handle, and only when the call
/// was cancelled and leaves.
proof fn lemma_collect_reports<V>(g: GuestView<V>, f: u32)
    ensures
        ({
            let r = collect(g, f);
            &&& outputs_extend(g, r)
            &&& r.output.len() <= g.output.len() + 1
            &&& r.output.len() == g.output.len() + 1 ==> {
                &&& f < g.futures.len()
                &&& g.futures[f as int] is Some
                &&& g.futures[f as int]->0.state == FutureStateView::<V>::Cancelled(
                    Some(r.output.last()->CancelComplete_0),
                )
                &&& r.output.last() is CancelComplete
                &&& r.futures[f as int] is None
            }
            &&& r.futures.len() == g.futures.len()
        }),
{
    lemma_collect_extend(g, f);
}

/// A step reports a completed cancellation at most once, as its last
/// output, and only for a call that leaves in that step: one the host
/// cancelled with that very handle, in this input or before. A call leaves
/// only once nothing refers to it, so the report never comes early, and a
/// call that left cannot report again.
pub proof fn law_completion_reported_once_when_call_leaves<V>(g: GuestView<V>, input: PollInput)
    requires
        guest_wf(g),
        input_ok(g, input),
    ensures
        ({
            let r = input_step(g, input).0;
            forall|i: int|
                g.output.len() <= i < r.output.len() && (#[trigger] r.output[i]) is CancelComplete
                    ==> {
                    &&& i == r.output.len() - 1
                    &&& exists|f: u32|
                        #![trigger g.futures[f as int]]
                        f < g.futures.len() && g.futures[f as int] is Some && f < r.futures.len()
                            && r.futures[f as int] is None && (g.futures[f as int]->0.state
                            == FutureStateView::<V>::Cancelled(Some(r.output[i]->CancelComplete_0))
                            || input == (PollInput::Cancel {
                            state: f,
                            cancel: r.output[i]->CancelComplete_0,
                        }))
                }
        }),
{
    let r = input_step(g, input).0;
    match input {
        PollInput::Listening { state, cancel } => {
            assert forall|i: int| g.output.len() <= i < r.output.len() implies !((#[trigger] r.output[i]) is CancelComplete) by {
                assert(r.output[i] == PollOutput::Cancel(cancel));
            }
        },
        PollInput::Ready { state, ready } => {
            lemma_release_cell_frame(wake(g, state, ready), g.listens[state as int]->0.cell);
        },
        PollInput::Cancel { state, cancel } => {
            let e = g.futures[state as int]->0;
            let cancelled = GuestView {
                futures: g.futures.update(
                    state as int,
                    Some(
                        FutureView {
                            pending_handle: false,
                            state: FutureStateView::Cancelled(Some(cancel)),
                            ..e
                        },
                    ),
                ),
                ..g
            };
            match e.state {
                FutureStateView::Pending { ready, cancel_states } => {
                    let done = cancel_cells(cancelled, cancel_states);
                    lemma_cancel_cells_only_cancels(cancelled, cancel_states);
                    let dr = GuestView { dropped: done.dropped.push(ready->0), ..done };
                    let released = release_cells(dr, cancel_states);
                    lemma_release_cells_frame(dr, cancel_states);
                    lemma_collect_reports(released, state);
                    assert forall|i: int|
                        g.output.len() <= i < r.output.len() && (#[trigger] r.output[i]) is CancelComplete implies {
                        &&& i == r.output.len() - 1
                        &&& exists|f: u32|
                            #![trigger g.futures[f as int]]
                            f < g.futures.len() && g.futures[f as int] is Some && f < r.futures.len()
                                && r.futures[f as int] is None && (g.futures[f as int]->0.state
                                == FutureStateView::<V>::Cancelled(Some(r.output[i]->CancelComplete_0))
                                || input == (PollInput::Cancel {
                                state: f,
                                cancel: r.output[i]->CancelComplete_0,
                            }))
                    } by {
                        if i < released.output.len() {
                            assert(r.output[i] == released.output[i]);
                            assert(released.output[i] == done.output[i]);
                        }
                        assert(input == (PollInput::Cancel { state, cancel: r.output[i]->CancelComplete_0 }));
                    }
                },
                _ => {
                    lemma_collect_reports(cancelled, state);
                    assert forall|i: int|
                        g.output.len() <= i < r.output.len() && (#[trigger] r.output[i]) is CancelComplete implies {
                        &&& i == r.output.len() - 1
                        &&& exists|f: u32|
                            #![trigger g.futures[f as int]]
                            f < g.futures.len() && g.futures[f as int] is Some && f < r.futures.len()
                                && r.futures[f as int] is None && (g.futures[f as int]->0.state
                                == FutureStateView::<V>::Cancelled(Some(r.output[i]->CancelComplete_0))
                                || input == (PollInput::Cancel {
                                state: f,
                                cancel: r.output[i]->CancelComplete_0,
                            }))
                    } by {
                        assert(input == (PollInput::Cancel { state, cancel: r.output[i]->CancelComplete_0 }));
                    }
                },
            }
        },
        PollInput::CancelComplete(state) => {
            let l = g.listens[state as int]->0;
            let g1 = GuestView { listens: g.listens.update(state as int, None), ..g };
            lemma_release_cell_frame(g1, l.cell);
            let g2 = release_cell(g1, l.cell);
            lemma_collect_reports(g2, l.future);
            assert forall|i: int|
                g.output.len() <= i < r.output.len() && (#[trigger] r.output[i]) is CancelComplete implies {
                &&& i == r.output.len() - 1
                &&& exists|f: u32|
                    #![trigger g.futures[f as int]]
                    f < g.futures.len() && g.futures[f as int] is Some && f < r.futures.len()
                        && r.futures[f as int] is None && (g.futures[f as int]->0.state
                        == FutureStateView::<V>::Cancelled(Some(r.output[i]->CancelComplete_0))
                        || input == (PollInput::Cancel {
                        state: f,
                        cancel: r.output[i]->CancelComplete_0,
                    }))
            } by {
                assert(g2.futures == g.futures);
                assert(g2.output == g.output);
                assert(r == collect(g2, l.future));
                assert(r.output.len() == g.output.len() + 1);
                assert(r.output[i] == r.output.last());
                assert(l.future < g.futures.len() && g.futures[l.future as int] is Some);
                assert(r.futures[l.future as int] is None);
                assert(g.futures[l.future as int]->0.state == FutureStateView::<V>::Cancelled(
                    Some(r.output[i]->CancelComplete_0),
                ));
                let f = l.future;
                assert(f < g.futures.len() && g.futures[f as int] is Some && f < r.futures.len()
                    && r.futures[f as int] is None && g.futures[f as int]->0.state
                    == FutureStateView::<V>::Cancelled(Some(r.output[i]->CancelComplete_0)));
            }
        },
    }
}

/// Letting go of cells frees a cell or leaves it as it was.
proof fn lemma_release_cells_free_or_keep<V>(g: GuestView<V>, cs: Seq<usize>, d: int)
    requires
        0 <= d < g.cells.len(),
    ensures
        release_cells(g, cs).cells[d] is None || release_cells(g, cs).cells[d] == g.cells[d],
    decreases cs.len(),
{
    lemma_release_cells_frame(g, cs);
    if cs.len() > 0 {
        lemma_release_cells_free_or_keep(g, cs.drop_last(), d);
        lemma_release_cells_frame(g, cs.drop_last());
    }
}

/// Letting go of cells keeps a cell that a running call listens on.
proof fn lemma_release_cells_keep_call_cell<V>(g: GuestView<V>, cs: Seq<usize>, f: int, d: usize)
    requires
        call_refers_at(g, f, d),
        d < g.cells.len(),
    ensures
        release_cells(g, cs).cells[d as int] == g.cells[d as int],
    decreases cs.len(),
{
    lemma_release_cells_frame(g, cs);
    if cs.len() > 0 {
        lemma_release_cells_keep_call_cell(g, cs.drop_last(), f, d);
        let mid = release_cells(g, cs.drop_last());
        lemma_release_cells_frame(g, cs.drop_last());
        assert(call_refers_at(mid, f, d));
        assert(call_refers(mid, d));
        assert(cell_referenced(mid, d));
        assert(release_cells(g, cs) == release_cell(mid, cs.last()));
    }
}

/// Cancelling live cells tells the host to stop listening on each cell
/// that it listened on.
proof fn lemma_cancel_cells_report<V>(g: GuestView<V>, cs: Seq<usize>)
    requires
        forall|k: int| 0 <= k < cs.len() ==> live_cell(g, #[trigger] cs[k]),
    ensures
        forall|k: int|
            0 <= k < cs.len() && (g.cells[#[trigger] cs[k] as int]->0.state is Listening) ==> exists|i: int|
                g.output.len() <= i < cancel_cells(g, cs).output.len() && cancel_cells(g, cs).output[i]
                    == PollOutput::Cancel(g.cells[cs[k] as int]->0.state->Listening_0),
    decreases cs.len(),
{
    if cs.len() > 0 {
        let rest = cs.drop_last();
        assert forall|k: int| 0 <= k < rest.len() implies live_cell(g, #[trigger] rest[k]) by {
            assert(rest[k] == cs[k]);
        }
        lemma_cancel_cells_report(g, rest);
        law_cancelled_cells_end_cancelled(g, rest);
        let mid = cancel_cells(g, rest);
        let r = cancel_cells(g, cs);
        lemma_cancel_cells_extend(g, cs);
        assert forall|k: int|
            0 <= k < cs.len() && (g.cells[#[trigger] cs[k] as int]->0.state is Listening) implies exists|i: int|
                g.output.len() <= i < r.output.len() && r.output[i] == PollOutput::Cancel(
                    g.cells[cs[k] as int]->0.state->Listening_0,
                ) by {
            let h = g.cells[cs[k] as int]->0.state->Listening_0;
            let k2 = if k < cs.len() - 1 {
                k
            } else if rest.contains(cs[k]) {
                choose|j: int| 0 <= j < rest.len() && rest[j] == cs[k]
            } else {
                -1
            };
            if k2 >= 0 {
                assert(rest[k2] == cs[k]);
                let i = choose|i: int|
                    g.output.len() <= i < mid.output.len() && mid.output[i] == PollOutput::Cancel(
                        g.cells[rest[k2] as int]->0.state->Listening_0,
                    );
                assert(r.output[i] == mid.output[i]);
            } else {
                assert(!rest.contains(cs[k]));
                assert(mid.cells[cs[k] as int] == g.cells[cs[k] as int]);
                assert(r.output[mid.output.len() as int] == PollOutput::Cancel(h));
            }
        }
    }
}

/// A call that finished tells the host to stop listening on every wait it
/// leaves behind: for each cell it had the host listen on that was still
/// listened to, a cancel with the host's handle comes before the ready
/// output, which comes last; and afterwards none of those cells is
/// listened to (each is cancelled or gone).
pub proof fn law_finished_call_stops_its_listeners<V>(g: GuestView<V>, v: V)
    requires
        guest_wf(g),
        g.pollables.len() > 0,
        g.futures[g.pollables[0] as int]->0.state is Pending,
    ensures
        ({
            let f = g.pollables[0];
            let e = g.futures[f as int]->0;
            let cs = e.state->cancel_states;
            let r = after_poll_spec(g, Polled::Ready(v));
            &&& r.output.len() > g.output.len()
            &&& r.output.last() == (PollOutput::Ready { state: f, ready: e.state->ready->0 })
            &&& forall|k: int|
                0 <= k < cs.len() && (g.cells[#[trigger] cs[k] as int]->0.state is Listening) ==> exists|i: int|
                    g.output.len() <= i < r.output.len() - 1 && r.output[i] == PollOutput::Cancel(
                        g.cells[cs[k] as int]->0.state->Listening_0,
                    )
            &&& forall|k: int|
                0 <= k < cs.len() ==> r.cells[#[trigger] cs[k] as int] is None || r.cells[cs[k] as int]->0.state
                    is Cancel
        }),
{
    let f = g.pollables[0];
    assert(g.futures[f as int] is Some);
    lemma_clear_pending_frame(g);
    let g1 = clear_pending_spec(g);
    let e = g1.futures[f as int]->0;
    let cs = e.state->cancel_states;
    let gp = GuestView {
        pending: Seq::empty(),
        dropped: g.dropped + g.pending.map_values(|p: PendingView| p.pending),
        ..g
    };
    assert forall|k: int| 0 <= k < cs.len() implies g1.cells[#[trigger] cs[k] as int] == g.cells[cs[k] as int] by {
        assert(call_refers_at(gp, f as int, cs[k]));
        assert(call_refers_at(g, f as int, cs[k]));
        assert(live_cell(g, cs[k]));
        lemma_release_cells_keep_call_cell(gp, g.pending.map_values(|p: PendingView| p.cell), f as int, cs[k]);
    }
    let g2 = GuestView {
        pollables: g1.pollables.drop_first(),
        futures: g1.futures.update(
            f as int,
            Some(
                FutureView {
                    ready_handle: true,
                    polling: false,
                    state: FutureStateView::Ready(Some(v)),
                    ..e
                },
            ),
        ),
        ..g1
    };
    assert forall|k: int| 0 <= k < cs.len() implies live_cell(g2, #[trigger] cs[k]) by {
        assert(call_refers_at(g, f as int, cs[k]));
        assert(g1.cells[cs[k] as int] == g.cells[cs[k] as int]);
    }
    lemma_cancel_cells_report(g2, cs);
    law_cancelled_cells_end_cancelled(g2, cs);
    let g3 = cancel_cells(g2, cs);
    let ready = PollOutput::Ready { state: f, ready: e.state->ready->0 };
    let g4 = GuestView { output: g3.output.push(ready), ..g3 };
    lemma_release_cells_frame(g4, cs);
    let r = release_cells(g4, cs);
    assert(r == after_poll_spec(g, Polled::Ready(v)));
    assert forall|k: int|
        0 <= k < cs.len() && (g.cells[#[trigger] cs[k] as int]->0.state is Listening) implies exists|i: int|
            g.output.len() <= i < r.output.len() - 1 && r.output[i] == PollOutput::Cancel(
                g.cells[cs[k] as int]->0.state->Listening_0,
            ) by {
        assert(g2.cells[cs[k] as int] == g.cells[cs[k] as int]);
        let i = choose|i: int|
            g2.output.len() <= i < g3.output.len() && g3.output[i] == PollOutput::Cancel(
                g2.cells[cs[k] as int]->0.state->Listening_0,
            );
        assert(r.output[i] == g3.output[i]);
    }
    assert forall|k: int| 0 <= k < cs.len() implies r.cells[#[trigger] cs[k] as int] is None
        || r.cells[cs[k] as int]->0.state is Cancel by {
        assert(live_cell(g2, cs[k]));
        lemma_release_cells_free_or_keep(g4, cs, cs[k] as int);
        assert(g3.cells[cs[k] as int] == Some(Cell { state: CancelState::Cancel, ..g2.cells[cs[k] as int]->0 }));
    }
}

/// A finished wait wakes its call: its listener leaves, its cell ends
/// cancelled or gone, the call is queued to be polled (calls queued
/// before stay queued), no output is added, the ready handle goes through
/// the wait's own sender unless the wait was cancelled, in which case it
/// is given up, and a listening host's cancel handle is given up.
pub proof fn law_ready_input_wakes_its_call<V>(g: GuestView<V>, state: u32, ready: u32)
    requires
        guest_wf(g),
        input_ok(g, PollInput::Ready { state, ready }),
    ensures
        ({
            let input = PollInput::Ready { state, ready };
            let l = g.listens[state as int]->0;
            let c = g.cells[l.cell as int]->0.state;
            let r = input_step(g, input).0;
            &&& r.listens[state as int] is None
            &&& r.pollables.contains(l.future)
            &&& forall|p: u32| g.pollables.contains(p) ==> r.pollables.contains(p)
            &&& r.cells[l.cell as int] is None || r.cells[l.cell as int]->0.state is Cancel
            &&& r.output == g.output
            &&& r.dropped == match c {
                CancelState::Cancel => g.dropped.push(ready),
                CancelState::Listening(h) => g.dropped.push(h),
                CancelState::Pending => g.dropped,
            }
            &&& delivery(g, input) == if c is Cancel {
                None
            } else {
                Some((l.tx, ready))
            }
        }),
{
    let l = g.listens[state as int]->0;
    let w = wake(g, state, ready);
    lemma_release_cell_frame(w, l.cell);
    assert(live_cell(g, l.cell));
    if g.pollables.contains(l.future) {
    } else {
        assert(w.pollables[w.pollables.len() - 1] == l.future);
    }
    assert forall|p: u32| g.pollables.contains(p) implies w.pollables.contains(p) by {
        let k = choose|k: int| 0 <= k < g.pollables.len() && g.pollables[k] == p;
        assert(w.pollables[k] == p);
    }
}

/// When the host listens on a wait, a wait that still waits records the
/// host's cancel handle and joins its call's listened cells, with nothing
/// output; a cancelled wait tells the host to stop at once with that
/// handle, changing nothing else.
pub proof fn law_listening_input_is_recorded_or_refused<V>(g: GuestView<V>, state: u32, cancel: u32)
    requires
        guest_wf(g),
        input_ok(g, PollInput::Listening { state, cancel }),
    ensures
        ({
            let l = g.listens[state as int]->0;
            let r = input_step(g, PollInput::Listening { state, cancel }).0;
            if g.cells[l.cell as int]->0.state is Pending {
                &&& r.cells[l.cell as int]->0.state == CancelState::Listening(cancel)
                &&& r.futures[l.future as int]->0.state->cancel_states == g.futures[l.future as int]->0.state->cancel_states.push(l.cell)
                &&& r.output == g.output
                &&& r.listens == g.listens
            } else {
                &&& r.output == g.output.push(PollOutput::Cancel(cancel))
                &&& r.cells == g.cells
                &&& r.futures == g.futures
            }
        }),
{
}

/// Dropping a wait leaves its cell cancelled and unguarded, or gone, and
/// tells a listening host to stop with its handle; otherwise it outputs
/// nothing.
pub proof fn law_dropped_wait_stops_listening<V>(g: GuestView<V>, cell: usize)
    requires
        live_cell(g, cell),
    ensures
        ({
            let r = drop_guard(g, cell);
            &&& r.cells[cell as int] is None || (r.cells[cell as int]->0.state is Cancel
                && !r.cells[cell as int]->0.guarded)
            &&& r.output == match g.cells[cell as int]->0.state {
                CancelState::Listening(h) => g.output.push(PollOutput::Cancel(h)),
                _ => g.output,
            }
        }),
{
    let c1 = cancel_cell(g, cell);
    let c2 = GuestView {
        cells: c1.cells.update(cell as int, Some(Cell { guarded: false, ..c1.cells[cell as int]->0 })),
        ..c1
    };
    lemma_release_cell_frame(c2, cell);
}

/// Polling the call at the front of the queue takes it off the queue
/// whatever the outcome; a call that still waits announces each of its new
/// waits once, in order, with a listen output carrying the wait's pending
/// handle, and keeps running with its pending handle out.
pub proof fn law_polled_call_leaves_the_queue<V>(g: GuestView<V>, outcome: Polled<V>)
    requires
        guest_wf(g),
        g.pollables.len() > 0,
        g.futures[g.pollables[0] as int]->0.state is Pending,
        outcome is Pending ==> g.listens.len() + g.pending.len() <= u32::MAX,
    ensures
        ({
            let f = g.pollables[0];
            let r = after_poll_spec(g, outcome);
            &&& r.pollables == g.pollables.drop_first()
            &&& r.pending.len() == 0
            &&& outcome is Pending ==> {
                &&& r.output.len() == g.output.len() + g.pending.len()
                &&& r.output.subrange(0, g.output.len() as int) == g.output
                &&& forall|i: int|
                    0 <= i < g.pending.len() ==> (#[trigger] r.output[g.output.len() + i]) is Listen
                        && r.output[g.output.len() + i]->Listen_pending == g.pending[i].pending
                &&& r.futures[f as int]->0.state == g.futures[f as int]->0.state
                &&& r.futures[f as int]->0.pending_handle
            }
        }),
{
    let f = g.pollables[0];
    assert(g.futures[f as int] is Some);
    match outcome {
        Polled::Pending => {
            law_each_wait_is_listened_once(g, f, g.pending);
            lemma_push_listen_all_frame(g, f, g.pending);
        },
        Polled::Ready(v) => {
            lemma_clear_pending_frame(g);
            let g1 = clear_pending_spec(g);
            let e = g1.futures[f as int]->0;
            let cs = e.state->cancel_states;
            let g2 = GuestView {
                pollables: g1.pollables.drop_first(),
                futures: g1.futures.update(
                    f as int,
                    Some(
                        FutureView {
                            ready_handle: true,
                            polling: false,
                            state: FutureStateView::Ready(Some(v)),
                            ..e
                        },
                    ),
                ),
                ..g1
            };
            lemma_cancel_cells_frame(g2, g2, cs);
            let g3 = cancel_cells(g2, cs);
            let g4 = GuestView {
                output: g3.output.push(PollOutput::Ready { state: f, ready: e.state->ready->0 }),
                ..g3
            };
            lemma_release_cells_frame(g4, cs);
        },
    }
}

/// The host cancelling a call marks it cancelled with the host's handle
/// (or lets it go at once when nothing else refers to it); a call that was
/// still running is abandoned, gives up its ready handle and tells the host
/// to stop listening on each of its listened waits; a call that had
/// finished drops its result.
pub proof fn law_cancel_input_cancels_the_call<V>(g: GuestView<V>, state: u32, cancel: u32)
    requires
        guest_wf(g),
        input_ok(g, PollInput::Cancel { state, cancel }),
    ensures
        ({
            let e = g.futures[state as int]->0;
            let (r, abandoned) = input_step(g, PollInput::Cancel { state, cancel });
            &&& r.futures[state as int] is None || (r.futures[state as int]->0.state
                == FutureStateView::<V>::Cancelled(Some(cancel)) && !r.futures[state as int]->0.pending_handle)
            &&& abandoned == (if e.state is Pending {
                Some(state)
            } else {
                None::<u32>
            })
            &&& e.state is Pending ==> {
                let cs = e.state->cancel_states;
                &&& r.dropped == g.dropped.push(e.state->ready->0)
                &&& forall|k: int|
                    0 <= k < cs.len() && (g.cells[#[trigger] cs[k] as int]->0.state is Listening)
                        ==> exists|i: int|
                        g.output.len() <= i < r.output.len() && r.output[i] == PollOutput::Cancel(
                            g.cells[cs[k] as int]->0.state->Listening_0,
                        )
            }
            &&& !(e.state is Pending) ==> r.dropped == g.dropped
        }),
{
    let e = g.futures[state as int]->0;
    let cancelled = GuestView {
        futures: g.futures.update(
            state as int,
            Some(FutureView { pending_handle: false, state: FutureStateView::Cancelled(Some(cancel)), ..e }),
        ),
        ..g
    };
    match e.state {
        FutureStateView::Pending { ready, cancel_states } => {
            let cs = cancel_states;
            assert forall|k: int| 0 <= k < cs.len() implies live_cell(cancelled, #[trigger] cs[k]) by {
                assert(call_refers_at(g, state as int, cs[k]));
            }
            lemma_cancel_cells_report(cancelled, cs);
            lemma_cancel_cells_only_cancels(cancelled, cs);
            lemma_cancel_cells_frame(cancelled, cancelled, cs);
            let done = cancel_cells(cancelled, cs);
            let dr = GuestView { dropped: done.dropped.push(ready->0), ..done };
            lemma_release_cells_frame(dr, cs);
            let released = release_cells(dr, cs);
            lemma_collect_reports(released, state);
            let r = collect(released, state);
            assert forall|k: int|
                0 <= k < cs.len() && (g.cells[#[trigger] cs[k] as int]->0.state is Listening) implies exists|i: int|
                    g.output.len() <= i < r.output.len() && r.output[i] == PollOutput::Cancel(
                        g.cells[cs[k] as int]->0.state->Listening_0,
                    ) by {
                let i = choose|i: int|
                    cancelled.output.len() <= i < done.output.len() && done.output[i] == PollOutput::Cancel(
                        cancelled.cells[cs[k] as int]->0.state->Listening_0,
                    );
                assert(r.output[i] == done.output[i]);
            }
        },
        _ => {
            lemma_collect_reports(cancelled, state);
        },
    }
}

/// A listener whose cancellation completed leaves, and nothing is output
/// but, when its call then leaves, that call's completed cancellation.
pub proof fn law_cancel_complete_input_removes_the_listener<V>(g: GuestView<V>, state: u32)
    requires
        guest_wf(g),
        input_ok(g, PollInput::CancelComplete(state)),
    ensures
        ({
            let r = input_step(g, PollInput::CancelComplete(state)).0;
            &&& r.listens[state as int] is None
            &&& r.dropped == g.dropped
            &&& r.output == g.output || r.output == g.output.push(r.output.last())
        }),
{
    let l = g.listens[state as int]->0;
    let g1 = GuestView { listens: g.listens.update(state as int, None), ..g };
    lemma_release_cell_frame(g1, l.cell);
    let g2 = release_cell(g1, l.cell);
    lemma_collect_reports(g2, l.future);
    let r = collect(g2, l.future);
    if r.output.len() == g.output.len() + 1 {
        assert(r.output =~= g.output.push(r.output.last()));
    } else {
        assert(r.output =~= g.output);
    }
}

/// Skipping the calls that no longer run stops at the first call that
/// still runs, if any, and no call that still runs leaves the queue.
pub proof fn law_next_pollable_keeps_running_calls<V>(g: GuestView<V>)
    requires
        forall|k: int| 0 <= k < g.pollables.len() ==> #[trigger] g.pollables[k] < g.futures.len(),
    ensures
        ({
            let r = skip_settled(g);
            &&& r.pollables.len() == 0 || r.futures[r.pollables[0] as int]->0.state is Pending
            &&& forall|p: u32|
                g.pollables.contains(p) && g.futures[p as int]->0.state is Pending
                    ==> #[trigger] r.pollables.contains(p)
        }),
    decreases g.pollables.len(),
{
    if g.pollables.len() > 0 && !(g.futures[g.pollables[0] as int]->0.state is Pending) {
        let f0 = g.pollables[0];
        let d = dequeue(g, f0);
        let g2 = settle(g, f0);
        assert(g2.pollables == d.pollables && g2.futures.len() == g.futures.len());
        assert forall|k: int| 0 <= k < g2.pollables.len() implies #[trigger] g2.pollables[k] < g2.futures.len() by {
            assert(g2.pollables[k] == g.pollables[k + 1]);
        }
        law_next_pollable_keeps_running_calls(g2);
        assert forall|p: u32|
            g.pollables.contains(p) && g.futures[p as int]->0.state is Pending implies #[trigger] skip_settled(g).pollables.contains(p) by {
            assert(p != f0);
            let k = choose|k: int| 0 <= k < g.pollables.len() && g.pollables[k] == p;
            assert(k != 0);
            assert(d.pollables[k - 1] == p);
            assert(g2.pollables == d.pollables);
            assert(g2.pollables.contains(p));
            assert(d.futures[p as int] == g.futures[p as int]);
            assert(g2.futures[p as int] == d.futures[p as int]);
        }
    }
}

/// The guest's side of the protocol: what its futures wait for and what it
/// must tell the host. `V` is the type of a finished call's result.
pub struct GuestRuntime<V> {
    pending: Vec<PendingState>,
    output: Vec<PollOutput>,
    dropped: Vec<u32>,
    cells: Vec<Option<Cell>>,
    listens: Vec<Option<ListenState>>,
    futures: Vec<Option<FutureEntry<V>>>,
    pollables: Vec<u32>,
}

impl<V> View for GuestRuntime<V> {
    type V = GuestView<V>;

    closed spec fn view(&self) -> GuestView<V> {
        GuestView {
            pending: self.pending@.map_values(|p: PendingState| p@),
            output: self.output@,
            dropped: self.dropped@,
            cells: self.cells@,
            listens: self.listens@.map_values(|l: Option<ListenState>| opt_view(l)),
            futures: self.futures@.map_values(|f: Option<FutureEntry<V>>| opt_view(f)),
            pollables: self.pollables@,
        }
    }
}

/// The shape of a guest's state: keys fit in 32 bits, every listener's call
/// exists, a running call still has its pending handle and ready handle, a
/// finished call's result is kept while its ready handle is out, and the
/// calls to poll are live and listed once.
pub open spec fn guest_shape<V>(g: GuestView<V>) -> bool {
    &&& g.listens.len() <= u32::MAX + 1
    &&& g.futures.len() <= u32::MAX + 1
    &&& forall|i: int|
        0 <= i < g.listens.len() && (#[trigger] g.listens[i]) is Some ==> {
            let l = g.listens[i]->0;
            &&& l.future < g.futures.len()
            &&& g.futures[l.future as int] is Some
        }
    &&& forall|f: int|
        0 <= f < g.futures.len() && (#[trigger] g.futures[f]) is Some ==> {
            let e = g.futures[f]->0;
            &&& (e.state matches FutureStateView::Pending { ready, .. } ==> {
                &&& e.pending_handle
                &&& ready is Some
            })
            &&& (e.state matches FutureStateView::Ready(v) ==> (v is Some ==> e.ready_handle))
            &&& (e.state matches FutureStateView::Cancelled(c) ==> c is Some)
            &&& (e.polling <==> g.pollables.contains(f as u32))
        }
    &&& forall|k: int|
        0 <= k < g.pollables.len() ==> {
            let f = #[trigger] g.pollables[k];
            &&& f < g.futures.len()
            &&& g.futures[f as int] is Some
        }
    &&& g.pollables.no_duplicates()
}

/// Every live call other than `skip` is still referred to.
pub open spec fn referenced_except<V>(g: GuestView<V>, skip: Option<u32>) -> bool {
    forall|f: int|
        0 <= f < g.futures.len() && (#[trigger] g.futures[f]) is Some && skip != Some(f as u32)
            ==> referenced(g, f as u32)
}

/// The well-formedness of a guest's state: its shape, every live call is
/// referred to by something, the listener cells are in order, and every
/// live cell is referred to by something.
pub open spec fn guest_wf<V>(g: GuestView<V>) -> bool {
    &&& guest_shape(g)
    &&& referenced_except(g, None)
    &&& cells_ok(g)
    &&& cells_held_except(g, Set::empty())
}

impl<V> GuestRuntime<V> {
    /// The guest's state is well formed.
    pub open spec fn wf(&self) -> bool {
        guest_wf(self@)
    }

    /// A guest with nothing registered and nothing to report.
    pub fn new() -> (rt: Self)
        ensures
            rt.wf(),
            rt@.pending.len() == 0,
            rt@.output.len() == 0,
            rt@.dropped.len() == 0,
            rt@.cells.len() == 0,
            rt@.listens.len() == 0,
            rt@.futures.len() == 0,
            rt@.pollables.len() == 0,
    {
        let rt = GuestRuntime {
            pending: Vec::new(),
            output: Vec::new(),
            dropped: Vec::new(),
            cells: Vec::new(),
            listens: Vec::new(),
            futures: Vec::new(),
            pollables: Vec::new(),
        };
        assert(rt@.pending =~= Seq::<PendingView>::empty());
        assert(rt@.listens =~= Seq::<Option<ListenView>>::empty());
        assert(rt@.futures =~= Seq::<Option<FutureView<V>>>::empty());
        rt
    }
    /// Whether `cell` is a live listener cell that its wait still guards.
    pub fn guards(&self, cell: usize) -> (r: bool)
        ensures
            r == (live_cell(self@, cell) && self@.cells[cell as int]->0.guarded),
    {
        cell < self.cells.len() && match &self.cells[cell] {
            Some(c) => c.guarded,
            None => false,
        }
    }

    /// Cancels a live listener cell: a listening host is told to stop.
    fn cancel_one(&mut self, cell: usize)
        requires
            old(self).wf(),
            live_cell(old(self)@, cell),
        ensures
            final(self).wf(),
            final(self)@ == cancel_cell(old(self)@, cell),
    {
        let ghost g = self@;
        let previous = match &self.cells[cell] {
            Some(c) => *c,
            None => Cell { state: CancelState::Cancel, guarded: false },
        };
        self.cells.set(cell, Some(Cell { state: CancelState::Cancel, guarded: previous.guarded }));
        match previous.state {
            CancelState::Listening(c) => self.output.push(PollOutput::Cancel(c)),
            _ => {},
        }
        assert(self@.cells =~= cancel_cell(g, cell).cells);
        assert(self@ == cancel_cell(g, cell));
        assert(cells_ok(self@)) by {
            assert forall|i: int| 0 <= i < self@.pending.len() implies live_cell(self@, (#[trigger] self@.pending[i]).cell) by {
                assert(live_cell(g, g.pending[i].cell));
            }
            assert forall|i: int| 0 <= i < self@.listens.len() && (#[trigger] self@.listens[i]) is Some implies live_cell(
                self@,
                self@.listens[i]->0.cell,
            ) by {
                assert(live_cell(g, g.listens[i]->0.cell));
            }
            assert forall|f: int, d: usize| #[trigger] call_refers_at(self@, f, d) implies live_cell(self@, d) by {
                assert(call_refers_at(g, f, d));
            }
        }
        proof {
            lemma_shape_frame(g, self@, None);
            lemma_held_same_refs(g, self@, Set::empty());
        }
    }

    /// Whether anything refers to the live cell `c`.
    fn cell_in_use(&self, c: usize) -> (r: bool)
        requires
            live_cell(self@, c),
        ensures
            r == cell_referenced(self@, c),
    {
        let guarded = match &self.cells[c] {
            Some(x) => x.guarded,
            None => false,
        };
        if guarded {
            return true;
        }
        let mut i: usize = 0;
        while i < self.pending.len()
            invariant
                i <= self.pending@.len(),
                forall|j: int| 0 <= j < i ==> (#[trigger] self@.pending[j]).cell != c,
            decreases self.pending@.len() - i,
        {
            if self.pending[i].cell == c {
                assert(self@.pending[i as int].cell == c);
                return true;
            }
            i = i + 1;
        }
        let mut i: usize = 0;
        while i < self.listens.len()
            invariant
                i <= self.listens@.len(),
                forall|j: int|
                    0 <= j < i ==> !((#[trigger] self@.listens[j]) is Some && self@.listens[j]->0.cell == c),
            decreases self.listens@.len() - i,
        {
            match &self.listens[i] {
                Some(l) => {
                    if l.cell == c {
                        assert(self@.listens[i as int] is Some && self@.listens[i as int]->0.cell == c);
                        return true;
                    }
                },
                None => {},
            }
            i = i + 1;
        }
        let mut f: usize = 0;
        while f < self.futures.len()
            invariant
                f <= self.futures@.len(),
                forall|h: int| 0 <= h < f ==> !#[trigger] call_refers_at(self@, h, c),
            decreases self.futures@.len() - f,
        {
            match &self.futures[f] {
                Some(e) => match &e.state {
                    FutureState::Pending { cancel_states, .. } => {
                        if contains_cell(cancel_states, c) {
                            assert(call_refers_at(self@, f as int, c));
                            return true;
                        }
                    },
                    _ => {},
                },
                None => {},
            }
            f = f + 1;
        }
        false
    }

    /// Lets go of cell `c`: it leaves when nothing refers to it any more.
    fn release_one(&mut self, c: usize)
        requires
            cells_ok(old(self)@),
        ensures
            cells_ok(final(self)@),
            final(self)@ == release_cell(old(self)@, c),
    {
        let ghost g = self@;
        proof {
            lemma_release_cell_ok(g, c);
        }
        if c < self.cells.len() && self.cells[c].is_some() {
            if !self.cell_in_use(c) {
                self.cells.set(c, None);
                assert(self@.cells =~= release_cell(g, c).cells);
            }
        }
    }

    /// Lets go of the cells one after the other.
    fn release_all(&mut self, cs: &Vec<usize>)
        requires
            cells_ok(old(self)@),
        ensures
            cells_ok(final(self)@),
            final(self)@ == release_cells(old(self)@, cs@),
    {
        let mut i: usize = 0;
        while i < cs.len()
            invariant
                i <= cs@.len(),
                cells_ok(self@),
                self@ == release_cells(old(self)@, cs@.take(i as int)),
            decreases cs@.len() - i,
        {
            assert(cs@.take(i as int + 1).drop_last() =~= cs@.take(i as int));
            self.release_one(cs[i]);
            i = i + 1;
        }
        assert(cs@.take(cs@.len() as int) =~= cs@);
    }

    /// The wait that guards `cell` is dropped: the cell is cancelled, so a
    /// listening host is told to stop, and let go of.
    pub fn cancel_on_drop(&mut self, cell: usize)
        requires
            old(self).wf(),
            live_cell(old(self)@, cell),
            old(self)@.cells[cell as int]->0.guarded,
        ensures
            final(self).wf(),
            final(self)@ == drop_guard(old(self)@, cell),
    {
        let ghost g = self@;
        self.cancel_one(cell);
        let ghost g1 = self@;
        self.cells.set(cell, Some(Cell { state: CancelState::Cancel, guarded: false }));
        assert(self@.cells =~= g1.cells.update(
            cell as int,
            Some(Cell { guarded: false, ..g1.cells[cell as int]->0 }),
        ));
        assert(cells_ok(self@)) by {
            assert forall|i: int| 0 <= i < self@.pending.len() implies live_cell(self@, (#[trigger] self@.pending[i]).cell) by {
                assert(live_cell(g1, g1.pending[i].cell));
            }
            assert forall|i: int| 0 <= i < self@.listens.len() && (#[trigger] self@.listens[i]) is Some implies live_cell(
                self@,
                self@.listens[i]->0.cell,
            ) by {
                assert(live_cell(g1, g1.listens[i]->0.cell));
            }
            assert forall|f: int, d: usize| #[trigger] call_refers_at(self@, f, d) implies live_cell(self@, d) by {
                assert(call_refers_at(g1, f, d));
            }
        }
        let ghost g2 = self@;
        proof {
            lemma_held_keep_refs(g1, g2, Set::empty(), set![cell]);
            assert(Set::<usize>::empty().union(set![cell]) =~= set![cell]);
        }
        self.release_one(cell);
        proof {
            lemma_shape_frame(g1, g2, None);
            lemma_release_cell_frame(g2, cell);
            lemma_shape_frame(g2, self@, None);
            lemma_release_cell_held(g2, cell, set![cell]);
            assert(set![cell].remove(cell) =~= Set::<usize>::empty());
            assert(self@ == drop_guard(g, cell));
        }
    }

    /// Whether the registered waits can be handed to the host: at least one
    /// is registered and keys remain for them and for a new call.
    pub fn can_hand_over(&self) -> (r: bool)
        ensures
            r == (self@.pending.len() > 0 && self@.futures.len() < u32::MAX && self@.listens.len()
                + self@.pending.len() <= u32::MAX),
    {
        self.pending.len() > 0 && self.futures.len() < 0xffff_ffffusize && self.pending.len()
            <= 0xffff_ffffusize && self.listens.len() <= 0xffff_ffffusize - self.pending.len()
    }

    /// Whether the guest can act on `input`.
    pub fn input_acceptable(&self, input: PollInput) -> (r: bool)
        requires
            self.wf(),
        ensures
            r == input_ok(self@, input),
    {
        match input {
            PollInput::Listening { state, .. } => {
                if (state as usize) < self.listens.len() {
                    match &self.listens[state as usize] {
                        Some(l) => {
                            assert(self@.listens[state as int] == Some(l@));
                            assert(live_cell(self@, l.cell));
                            let st = match &self.cells[l.cell] {
                                Some(c) => c.state,
                                None => CancelState::Cancel,
                            };
                            match st {
                                CancelState::Listening(_) => false,
                                CancelState::Cancel => true,
                                CancelState::Pending => match &self.futures[l.future as usize] {
                                    Some(e) => match e.state {
                                        FutureState::Pending { .. } => true,
                                        _ => false,
                                    },
                                    None => false,
                                },
                            }
                        },
                        None => false,
                    }
                } else {
                    false
                }
            },
            PollInput::Ready { state, .. } => (state as usize) < self.listens.len()
                && self.listens[state as usize].is_some(),
            PollInput::CancelComplete(state) => (state as usize) < self.listens.len()
                && self.listens[state as usize].is_some(),
            PollInput::Cancel { state, .. } => {
                if (state as usize) < self.futures.len() {
                    match &self.futures[state as usize] {
                        Some(e) => e.pending_handle && match e.state {
                            FutureState::Cancelled(_) => false,
                            _ => true,
                        },
                        None => false,
                    }
                } else {
                    false
                }
            },
        }
    }

    /// Whether the result of call `state` can be collected: the call keeps
    /// a result and its ready handle is out.
    pub fn result_ready(&self, state: u32) -> (r: bool)
        ensures
            r == (state < self@.futures.len() && self@.futures[state as int] is Some
                && self@.futures[state as int]->0.ready_handle && kept_result(
                self@.futures[state as int]->0,
            ) is Some),
    {
        if (state as usize) < self.futures.len() {
            match &self.futures[state as usize] {
                Some(e) => e.ready_handle && match &e.state {
                    FutureState::Ready(v) => v.is_some(),
                    _ => false,
                },
                None => false,
            }
        } else {
            false
        }
    }

    /// Hands over the outputs for the host, in order, and forgets them.
    pub fn take_output(&mut self) -> (r: Vec<PollOutput>)
        requires
            old(self).wf(),
        ensures
            final(self).wf(),
            r@ == old(self)@.output,
            final(self)@ == (GuestView { output: Seq::empty(), ..old(self)@ }),
    {
        let mut r = Vec::new();
        std::mem::swap(&mut r, &mut self.output);
        assert(self@ =~= (GuestView { output: Seq::empty(), ..old(self)@ }));
        proof {
            lemma_wf_frame(old(self)@, self@);
        }
        r
    }

    /// Hands over the handles that the guest gave up, in order, and forgets
    /// them; each must be dropped.
    pub fn take_dropped(&mut self) -> (r: Vec<u32>)
        requires
            old(self).wf(),
        ensures
            final(self).wf(),
            r@ == old(self)@.dropped,
            final(self)@ == (GuestView { dropped: Seq::empty(), ..old(self)@ }),
    {
        let mut r = Vec::new();
        std::mem::swap(&mut r, &mut self.dropped);
        assert(self@ =~= (GuestView { dropped: Seq::empty(), ..old(self)@ }));
        proof {
            lemma_wf_frame(old(self)@, self@);
        }
        r
    }
    /// Stores a listener in the first free slot and gives its key.
    fn add_listen(&mut self, listen: ListenState, Ghost(held): Ghost<Set<usize>>) -> (key: u32)
        requires
            guest_shape(old(self)@),
            referenced_except(old(self)@, None),
            cells_ok(old(self)@),
            cells_held_except(old(self)@, held),
            old(self)@.pending.len() == 0,
            old(self)@.listens.len() < u32::MAX,
            live_cell(old(self)@, listen.cell),
            listen.future < old(self)@.futures.len(),
            old(self)@.futures[listen.future as int] is Some,
        ensures
            guest_shape(final(self)@),
            referenced_except(final(self)@, None),
            cells_ok(final(self)@),
            cells_held_except(final(self)@, held.remove(listen.cell)),
            key == first_free(old(self)@.listens),
            is_first_free(old(self)@.listens, key as int),
            final(self)@ == (GuestView {
                listens: set_slot(old(self)@.listens, key as int, listen@),
                ..old(self)@
            }),
    {
        let ghost g = self@;
        let ghost lv = listen@;
        let slot = free_slot(&self.listens);
        assert(is_first_free(g.listens, slot as int)) by {
            assert forall|j: int| 0 <= j < slot implies g.listens[j] is Some by {
                assert(self.listens@[j] is Some);
            }
        }
        proof {
            lemma_first_free(g.listens, slot as int);
        }
        if slot < self.listens.len() {
            self.listens.set(slot, Some(listen));
        } else {
            self.listens.push(Some(listen));
        }
        let ghost g2 = GuestView { listens: set_slot(g.listens, slot as int, lv), ..g };
        assert(self@.listens =~= g2.listens);
        assert(self@ == g2);
        assert forall|f: u32| has_listeners(g.listens, f) implies has_listeners(g2.listens, f) by {
            let i = choose|i: int|
                0 <= i < g.listens.len() && (#[trigger] g.listens[i]) is Some && g.listens[i]->0.future
                    == f;
            assert(g2.listens[i] == g.listens[i]);
        }
        assert forall|f: int| 0 <= f < g2.futures.len() && (#[trigger] g2.futures[f]) is Some implies referenced(
            g2,
            f as u32,
        ) by {
            assert(referenced(g, f as u32));
        }
        assert forall|i: int| 0 <= i < g2.listens.len() && (#[trigger] g2.listens[i]) is Some implies live_cell(
            g2,
            g2.listens[i]->0.cell,
        ) by {
            if i != slot {
                assert(g.listens[i] is Some);
            }
        }
        assert forall|f: int, d: usize| #[trigger] call_refers_at(g2, f, d) implies live_cell(g2, d) by {
            assert(call_refers_at(g, f, d));
        }
        assert(cells_held_except(g2, held.remove(lv.cell))) by {
            assert forall|d: usize| #[trigger] live_cell(g2, d) && !held.remove(lv.cell).contains(d) implies cell_referenced(g2, d) by {
                if d == lv.cell {
                    assert(g2.listens[slot as int] == Some(lv));
                    assert(listen_refers(g2, d));
                } else {
                    assert(live_cell(g, d));
                    assert(!held.contains(d));
                    assert(cell_referenced(g, d));
                    if listen_refers(g, d) {
                        let i = choose|i: int|
                            0 <= i < g.listens.len() && (#[trigger] g.listens[i]) is Some && g.listens[i]->0.cell == d;
                        assert(g2.listens[i] == g.listens[i]);
                    }
                    if call_refers(g, d) {
                        let f = choose|f: int| call_refers_at(g, f, d);
                        assert(call_refers_at(g2, f, d));
                    }
                }
            }
        }
        slot as u32
    }

    fn listened(&self, f: u32) -> (r: bool)
        ensures
            r == has_listeners(self@.listens, f),
    {
        let mut i: usize = 0;
        while i < self.listens.len()
            invariant
                i <= self.listens@.len(),
                forall|j: int| 0 <= j < i ==> !(self@.listens[j] is Some && self@.listens[j]->0.future == f),
            decreases self.listens@.len() - i,
        {
            match &self.listens[i] {
                Some(l) => {
                    if l.future == f {
                        assert(self@.listens[i as int] is Some && self@.listens[i as int]->0.future == f);
                        return true;
                    }
                },
                None => {},
            }
            i = i + 1;
        }
        false
    }

    /// Lets go of call `f`, which may have lost its last reference: when
    /// nothing refers to it any more it leaves, and a cancelled call reports
    /// its cancellation finished.
    fn collect(&mut self, f: u32)
        requires
            guest_shape(old(self)@),
            referenced_except(old(self)@, Some(f)),
            cells_ok(old(self)@),
            cells_held_except(old(self)@, Set::empty()),
        ensures
            final(self).wf(),
            final(self)@ == collect(old(self)@, f),
    {
        let ghost g = self@;
        if (f as usize) < self.futures.len() {
            let listened = self.listened(f);
            let unreferenced = match &self.futures[f as usize] {
                Some(e) => !(e.pending_handle || e.ready_handle || e.polling || listened),
                None => false,
            };
            if unreferenced {
                let mut slot = None;
                std::mem::swap(&mut slot, &mut self.futures[f as usize]);
                match slot {
                    Some(entry) => match entry.state {
                        FutureState::Cancelled(Some(c)) => {
                            self.output.push(PollOutput::CancelComplete(c));
                        },
                        _ => {},
                    },
                    None => {},
                }
                assert(self@.futures =~= g.futures.update(f as int, None));
                assert(self@ == collect(g, f));
                assert forall|i: int| 0 <= i < g.listens.len() && (#[trigger] g.listens[i]) is Some implies g.listens[i]->0.future != f by {
                    if g.listens[i]->0.future == f {
                        assert(has_listeners(g.listens, f));
                    }
                }
                assert(guest_wf(self@)) by {
                    assert forall|h: int| 0 <= h < self@.futures.len() && (#[trigger] self@.futures[h]) is Some implies referenced(self@, h as u32) by {
                        assert(referenced(g, h as u32));
                    }
                    assert forall|h: int, d: usize| #[trigger] call_refers_at(self@, h, d) implies live_cell(self@, d) by {
                        assert(call_refers_at(g, h, d));
                    }
                    assert(!(g.futures[f as int]->0.state is Pending));
                    assert forall|h: int, d: usize| #[trigger] call_refers_at(g, h, d) implies call_refers_at(self@, h, d) by {
                        assert(h != f);
                    }
                    lemma_held_same_refs(g, self@, Set::empty());
                }
            } else {
                assert(self@ == collect(g, f));
            }
        } else {
            assert(self@ == collect(g, f));
        }
    }

    /// Stores a call in the first free slot and gives its key.
    fn add_future(&mut self, entry: FutureEntry<V>) -> (key: u32)
        requires
            guest_shape(old(self)@),
            referenced_except(old(self)@, None),
            cells_ok(old(self)@),
            cells_held_except(old(self)@, Set::empty()),
            old(self)@.futures.len() < u32::MAX,
            entry.pending_handle,
            !entry.polling,
            entry@.state matches FutureStateView::Pending { ready, cancel_states } && ready is Some
                && cancel_states.len() == 0,
        ensures
            guest_wf(final(self)@),
            key == first_free(old(self)@.futures),
            is_first_free(old(self)@.futures, key as int),
            final(self)@ == (GuestView {
                futures: set_slot(old(self)@.futures, key as int, entry@),
                ..old(self)@
            }),
    {
        let ghost g = self@;
        let ghost ev = entry@;
        let slot = free_slot(&self.futures);
        assert(is_first_free(g.futures, slot as int)) by {
            assert forall|j: int| 0 <= j < slot implies g.futures[j] is Some by {
                assert(self.futures@[j] is Some);
            }
        }
        proof {
            lemma_first_free(g.futures, slot as int);
        }
        if slot < self.futures.len() {
            self.futures.set(slot, Some(entry));
        } else {
            self.futures.push(Some(entry));
        }
        let ghost g2 = GuestView { futures: set_slot(g.futures, slot as int, ev), ..g };
        assert(self@.futures =~= g2.futures);
        assert(self@ == g2);
        assert(!g.pollables.contains(slot as u32)) by {
            if g.pollables.contains(slot as u32) {
                let k = choose|k: int| 0 <= k < g.pollables.len() && g.pollables[k] == slot as u32;
                assert(g.futures[g.pollables[k] as int] is Some);
            }
        }
        assert(guest_wf(g2)) by {
            assert forall|h: int| 0 <= h < g2.futures.len() && (#[trigger] g2.futures[h]) is Some implies referenced(
                g2,
                h as u32,
            ) by {
                if h != slot {
                    assert(referenced(g, h as u32));
                }
            }
            assert forall|f: int| 0 <= f < g2.futures.len() && (#[trigger] g2.futures[f]) is Some implies (g2.futures[f]->0.polling <==> g2.pollables.contains(f as u32)) by {
                if f != slot {
                    assert(g.futures[f] is Some);
                }
            }
            assert forall|f: int, d: usize| #[trigger] call_refers_at(g2, f, d) implies live_cell(g2, d) by {
                if f != slot {
                    assert(call_refers_at(g, f, d));
                }
            }
            assert forall|f: int, d: usize| #[trigger] call_refers_at(g, f, d) implies call_refers_at(g2, f, d) by {
                assert(f != slot);
            }
            lemma_held_same_refs(g, g2, Set::empty());
        }
        slot as u32
    }

    /// Gives up the registered waits: their pending handles are dropped,
    /// and their cells let go of.
    fn clear_pending(&mut self)
        requires
            old(self).wf(),
        ensures
            final(self).wf(),
            final(self)@ == clear_pending_spec(old(self)@),
    {
        let ghost g = self@;
        let mut pending = Vec::new();
        std::mem::swap(&mut pending, &mut self.pending);
        let ghost handles = g.pending.map_values(|p: PendingView| p.pending);
        let ghost cell_keys = g.pending.map_values(|p: PendingView| p.cell);
        assert(g.dropped + handles.take(0) =~= g.dropped);
        assert(self@.pending =~= Seq::<PendingView>::empty());
        let mut cells: Vec<usize> = Vec::new();
        let mut i: usize = 0;
        while i < pending.len()
            invariant
                i <= pending@.len(),
                pending@.map_values(|p: PendingState| p@) == g.pending,
                handles == g.pending.map_values(|p: PendingView| p.pending),
                cell_keys == g.pending.map_values(|p: PendingView| p.cell),
                cells@ == cell_keys.take(i as int),
                self@ == (GuestView {
                    pending: Seq::empty(),
                    dropped: g.dropped + handles.take(i as int),
                    ..g
                }),
            decreases pending@.len() - i,
        {
            self.dropped.push(pending[i].pending);
            cells.push(pending[i].cell);
            assert(pending@[i as int]@ == g.pending[i as int]);
            assert(g.dropped + handles.take(i as int + 1) =~= (g.dropped + handles.take(i as int)).push(
                handles[i as int],
            ));
            assert(cells@ =~= cell_keys.take(i as int + 1));
            i = i + 1;
        }
        assert(handles.take(pending@.len() as int) =~= handles);
        assert(cell_keys.take(pending@.len() as int) =~= cell_keys);
        let ghost g1 = self@;
        assert(cells_ok(g1)) by {
            assert forall|f: int, d: usize| #[trigger] call_refers_at(g1, f, d) implies live_cell(g1, d) by {
                assert(call_refers_at(g, f, d));
            }
        }
        proof {
            let t = cell_keys.to_set();
            assert forall|i: int| 0 <= i < g.pending.len() && !t.contains((#[trigger] g.pending[i]).cell) implies pending_refers(
                g1,
                g.pending[i].cell,
            ) by {
                assert(cell_keys[i] == g.pending[i].cell);
            }
            assert forall|i: int|
                0 <= i < g.listens.len() && (#[trigger] g.listens[i]) is Some && !t.contains(
                    g.listens[i]->0.cell,
                ) implies listen_refers(g1, g.listens[i]->0.cell) by {
                assert(g1.listens[i] == g.listens[i]);
            }
            assert forall|f: int, d: usize| #[trigger] call_refers_at(g, f, d) && !t.contains(d) implies call_refers(g1, d) by {
                assert(call_refers_at(g1, f, d));
            }
            lemma_held_persist(g, g1, Set::empty(), t);
            assert(Set::<usize>::empty().union(t) =~= t);
        }
        self.release_all(&cells);
        proof {
            lemma_release_cells_frame(g1, cells@);
            lemma_shape_frame(g, g1, None);
            lemma_shape_frame(g1, self@, None);
            lemma_release_cells_all_held(g1, cells@, cell_keys.to_set());
        }
        assert(self@ == clear_pending_spec(g));
    }

    fn queued(&self, f: u32) -> (r: bool)
        ensures
            r == self@.pollables.contains(f),
    {
        let mut i: usize = 0;
        while i < self.pollables.len()
            invariant
                i <= self.pollables@.len(),
                forall|j: int| 0 <= j < i ==> self.pollables@[j] != f,
            decreases self.pollables@.len() - i,
        {
            if self.pollables[i] == f {
                return true;
            }
            i = i + 1;
        }
        false
    }

    /// The host listens on a wait: a registered wait records the host's
    /// cancel handle and joins its call's listeners; a cancelled one tells
    /// the host to stop at once.
    fn input_listening(&mut self, state: u32, cancel: u32)
        requires
            old(self).wf(),
            input_ok(old(self)@, PollInput::Listening { state, cancel }),
        ensures
            final(self).wf(),
            (final(self)@, None::<u32>) == input_step(old(self)@, PollInput::Listening { state, cancel }),
    {
        let ghost g = self@;
        let (future, cell) = match &self.listens[state as usize] {
            Some(l) => (l.future, l.cell),
            None => (0, 0),
        };
        assert(g.listens[state as int]->0.future == future && g.listens[state as int]->0.cell == cell);
        let current = match &self.cells[cell] {
            Some(c) => *c,
            None => Cell { state: CancelState::Cancel, guarded: false },
        };
        match current.state {
            CancelState::Pending => {
                let mut slot = None;
                std::mem::swap(&mut slot, &mut self.futures[future as usize]);
                let FutureEntry { pending_handle, ready_handle, polling, state: fs } = slot.unwrap();
                let fs = match fs {
                    FutureState::Pending { ready, mut cancel_states } => {
                        cancel_states.push(cell);
                        FutureState::Pending { ready, cancel_states }
                    },
                    other => other,
                };
                self.futures.set(
                    future as usize,
                    Some(FutureEntry { pending_handle, ready_handle, polling, state: fs }),
                );
                self.cells.set(cell, Some(Cell { state: CancelState::Listening(cancel), guarded: current.guarded }));
                let ghost g2 = input_step(g, PollInput::Listening { state, cancel }).0;
                assert(self@.futures =~= g2.futures);
                assert(self@.cells =~= g2.cells);
                assert(self@ == g2);
                assert(guest_wf(g2)) by {
                    assert forall|h: int| 0 <= h < g2.futures.len() && (#[trigger] g2.futures[h]) is Some implies referenced(g2, h as u32) by {
                        assert(referenced(g, h as u32));
                    }
                    assert(live_cell(g, cell));
                    assert forall|i: int| 0 <= i < g2.pending.len() implies live_cell(g2, (#[trigger] g2.pending[i]).cell) by {
                        assert(live_cell(g, g.pending[i].cell));
                    }
                    assert forall|i: int| 0 <= i < g2.listens.len() && (#[trigger] g2.listens[i]) is Some implies live_cell(
                        g2,
                        g2.listens[i]->0.cell,
                    ) by {
                        assert(live_cell(g, g.listens[i]->0.cell));
                    }
                    assert forall|h: int, d: usize| #[trigger] call_refers_at(g2, h, d) implies live_cell(g2, d) by {
                        if h != future || d != cell {
                            if h == future {
                                let cs = g.futures[h]->0.state->cancel_states;
                                assert(g2.futures[h]->0.state->cancel_states == cs.push(cell));
                                let k = choose|k: int| 0 <= k < cs.push(cell).len() && cs.push(cell)[k] == d;
                                assert(k < cs.len());
                                assert(cs[k] == d);
                            }
                            assert(call_refers_at(g, h, d));
                        }
                    }
                    assert forall|h: int, d: usize| #[trigger] call_refers_at(g, h, d) implies call_refers_at(g2, h, d) by {
                        if h == future {
                            let cs = g.futures[h]->0.state->cancel_states;
                            let k = choose|k: int| 0 <= k < cs.len() && cs[k] == d;
                            assert(cs.push(cell)[k] == d);
                        }
                    }
                    lemma_held_same_refs(g, g2, Set::empty());
                }
            },
            _ => {
                self.output.push(PollOutput::Cancel(cancel));
                proof {
                    lemma_wf_frame(g, self@);
                }
            },
        }
    }

    /// A wait finished: its listener leaves, its cell is cancelled, and the
    /// call it belongs to is queued to be polled. Gives the wait's own
    /// sender with the ready handle, to hand on, unless the wait was
    /// cancelled, in which case the handle is given up.
    fn input_ready(&mut self, state: u32, ready: u32) -> (handed: Option<(Sender<u32>, u32)>)
        requires
            old(self).wf(),
            input_ok(old(self)@, PollInput::Ready { state, ready }),
        ensures
            final(self).wf(),
            (final(self)@, None::<u32>) == input_step(old(self)@, PollInput::Ready { state, ready }),
            handed == delivery(old(self)@, PollInput::Ready { state, ready }),
    {
        let ghost g = self@;
        let mut slot = None;
        std::mem::swap(&mut slot, &mut self.listens[state as usize]);
        let ListenState { tx, future, cell } = slot.unwrap();
        assert(g.listens[state as int]->0.future == future && g.listens[state as int]->0.cell == cell
            && g.listens[state as int]->0.tx == tx);
        assert(live_cell(g, cell));
        let prev = match &self.cells[cell] {
            Some(c) => *c,
            None => Cell { state: CancelState::Cancel, guarded: false },
        };
        self.cells.set(cell, Some(Cell { state: CancelState::Cancel, guarded: prev.guarded }));
        let handed = match prev.state {
            CancelState::Cancel => {
                self.dropped.push(ready);
                None
            },
            _ => Some((tx, ready)),
        };
        match prev.state {
            CancelState::Listening(c) => {
                self.dropped.push(c);
            },
            _ => {},
        }
        if !self.queued(future) {
            self.pollables.push(future);
            let mut entry = None;
            std::mem::swap(&mut entry, &mut self.futures[future as usize]);
            let FutureEntry { pending_handle, ready_handle, polling: _, state: fs } = entry.unwrap();
            self.futures.set(
                future as usize,
                Some(FutureEntry { pending_handle, ready_handle, polling: true, state: fs }),
            );
        }
        let ghost g2 = wake(g, state, ready);
        assert(self@.listens =~= g2.listens);
        assert(self@.futures =~= g2.futures);
        assert(self@.dropped =~= g2.dropped);
        assert(self@.cells =~= g2.cells);
        assert(self@ == g2);
        assert(guest_shape(g2)) by {
            assert(g2.pollables.no_duplicates());
            assert forall|h: int| 0 <= h < g2.futures.len() && (#[trigger] g2.futures[h]) is Some implies (g2.futures[h]->0.polling <==> g2.pollables.contains(h as u32)) by {
                let hu = h as u32;
                if g2.pollables.contains(hu) {
                    let i = choose|i: int| 0 <= i < g2.pollables.len() && g2.pollables[i] == hu;
                    if i < g.pollables.len() {
                        assert(g.pollables[i] == hu);
                    }
                }
                if g.pollables.contains(hu) {
                    let i = choose|i: int| 0 <= i < g.pollables.len() && g.pollables[i] == hu;
                    assert(g2.pollables[i] == hu);
                }
                if h == future && !g.pollables.contains(hu) {
                    assert(g2.pollables[g2.pollables.len() - 1] == hu);
                }
                if h != future {
                    assert(g.futures[h] is Some);
                }
            }
        }
        assert(referenced_except(g2, None) && cells_ok(g2)) by {
            assert forall|h: int| 0 <= h < g2.futures.len() && (#[trigger] g2.futures[h]) is Some implies referenced(g2, h as u32) by {
                if h != future {
                    assert(referenced(g, h as u32));
                    if has_listeners(g.listens, h as u32) {
                        let i = choose|i: int|
                            0 <= i < g.listens.len() && (#[trigger] g.listens[i]) is Some
                                && g.listens[i]->0.future == h as u32;
                        assert(g2.listens[i] == g.listens[i]);
                    }
                }
            }
            assert(g2.pollables.no_duplicates());
            assert forall|i: int| 0 <= i < g2.pending.len() implies live_cell(g2, (#[trigger] g2.pending[i]).cell) by {
                assert(live_cell(g, g.pending[i].cell));
            }
            assert forall|i: int| 0 <= i < g2.listens.len() && (#[trigger] g2.listens[i]) is Some implies live_cell(
                g2,
                g2.listens[i]->0.cell,
            ) by {
                assert(live_cell(g, g.listens[i]->0.cell));
            }
            assert forall|h: int, d: usize| #[trigger] call_refers_at(g2, h, d) implies live_cell(g2, d) by {
                assert(call_refers_at(g, h, d));
            }
        }
        assert forall|h: int, d: usize| #[trigger] call_refers_at(g, h, d) implies call_refers_at(g2, h, d) by {}
        proof {
            lemma_listen_leaves(g, g2, state as int);
        }
        self.release_one(cell);
        proof {
            lemma_release_cell_frame(g2, cell);
            lemma_shape_frame(g2, self@, None);
            lemma_release_cell_held(g2, cell, set![cell]);
            assert(set![cell].remove(cell) =~= Set::<usize>::empty());
        }
        handed
    }

    /// A listener whose cancellation finished leaves; its call may go with it.
    fn input_cancel_complete(&mut self, state: u32)
        requires
            old(self).wf(),
            input_ok(old(self)@, PollInput::CancelComplete(state)),
        ensures
            final(self).wf(),
            (final(self)@, None::<u32>) == input_step(old(self)@, PollInput::CancelComplete(state)),
    {
        let ghost g = self@;
        let mut slot = None;
        std::mem::swap(&mut slot, &mut self.listens[state as usize]);
        let ListenState { tx: _, future, cell } = slot.unwrap();
        let ghost g1 = GuestView { listens: g.listens.update(state as int, None), ..g };
        assert(self@.listens =~= g1.listens);
        assert(self@ == g1);
        assert(cells_ok(g1)) by {
            assert forall|i: int| 0 <= i < g1.listens.len() && (#[trigger] g1.listens[i]) is Some implies live_cell(
                g1,
                g1.listens[i]->0.cell,
            ) by {
                assert(live_cell(g, g.listens[i]->0.cell));
            }
            assert forall|h: int, d: usize| #[trigger] call_refers_at(g1, h, d) implies live_cell(g1, d) by {
                assert(call_refers_at(g, h, d));
            }
        }
        assert(referenced_except(g1, Some(future))) by {
            assert forall|h: int| 0 <= h < g1.futures.len() && (#[trigger] g1.futures[h]) is Some && Some(future) != Some(h as u32) implies referenced(g1, h as u32) by {
                assert(referenced(g, h as u32));
                if has_listeners(g.listens, h as u32) {
                    let i = choose|i: int|
                        0 <= i < g.listens.len() && (#[trigger] g.listens[i]) is Some
                            && g.listens[i]->0.future == h as u32;
                    assert(g1.listens[i] == g.listens[i]);
                }
            }
        }
        assert(g.listens[state as int]->0.cell == cell);
        assert forall|h: int, d: usize| #[trigger] call_refers_at(g, h, d) implies call_refers_at(g1, h, d) by {}
        proof {
            lemma_listen_leaves(g, g1, state as int);
        }
        self.release_one(cell);
        proof {
            lemma_release_cell_frame(g1, cell);
            lemma_shape_frame(g1, self@, Some(future));
            lemma_release_cell_held(g1, cell, set![cell]);
            assert(set![cell].remove(cell) =~= Set::<usize>::empty());
        }
        self.collect(future);
    }
    /// The host cancels a call: it becomes cancelled, the listeners it had
    /// the host listen on are cancelled, a running call gives up its ready
    /// handle and is abandoned, and the call may go. Gives the abandoned call.
    fn input_cancel(&mut self, state: u32, cancel: u32) -> (abandoned: Option<u32>)
        requires
            old(self).wf(),
            input_ok(old(self)@, PollInput::Cancel { state, cancel }),
        ensures
            final(self).wf(),
            (final(self)@, abandoned) == input_step(old(self)@, PollInput::Cancel { state, cancel }),
    {
        let ghost g = self@;
        let ghost ev = g.futures[state as int]->0;
        let cs = self.listened_cells(state);
        assert forall|k: int| 0 <= k < cs@.len() implies live_cell(g, #[trigger] cs@[k]) by {
            assert(call_refers_at(g, state as int, cs@[k]));
        }
        cancel_all(self, &cs);
        let ghost g1 = self@;
        let ghost cancelled = GuestView {
            futures: g.futures.update(
                state as int,
                Some(
                    FutureView {
                        pending_handle: false,
                        state: FutureStateView::Cancelled(Some(cancel)),
                        ..ev
                    },
                ),
            ),
            ..g
        };
        proof {
            lemma_cancel_cells_frame(g, cancelled, cs@);
            lemma_cancel_cells_frame(cancelled, g, cs@);
        }
        assert(g1.futures == g.futures);
        let mut slot = None;
        std::mem::swap(&mut slot, &mut self.futures[state as usize]);
        let entry = slot.unwrap();
        assert(entry@ == ev);
        let FutureEntry { pending_handle: _, ready_handle, polling, state: fs } = entry;
        assert(fs@ == ev.state);
        self.futures.set(
            state as usize,
            Some(
                FutureEntry {
                    pending_handle: false,
                    ready_handle,
                    polling,
                    state: FutureState::Cancelled(Some(cancel)),
                },
            ),
        );
        assert(self@.futures =~= cancelled.futures);
        let abandoned = match fs {
            FutureState::Pending { ready, .. } => {
                self.dropped.push(ready.unwrap());
                Some(state)
            },
            _ => None,
        };
        let ghost fin = self@;
        let ghost target = match ev.state {
            FutureStateView::Pending { ready, cancel_states } => {
                let done = cancel_cells(cancelled, cancel_states);
                GuestView { dropped: done.dropped.push(ready->0), ..done }
            },
            _ => cancelled,
        };
        assert(fin == target);
        assert(forall|h: int| 0 <= h < fin.futures.len() && h != state ==> fin.futures[h] == g1.futures[h]);
        assert(guest_shape(fin)) by {
            assert forall|i: int| 0 <= i < fin.listens.len() && (#[trigger] fin.listens[i]) is Some implies fin.futures[fin.listens[i]->0.future as int] is Some by {
                assert(g1.listens[i] is Some);
            }
            assert forall|h: int| 0 <= h < fin.futures.len() && (#[trigger] fin.futures[h]) is Some implies (fin.futures[h]->0.polling <==> fin.pollables.contains(h as u32)) by {
                assert(g1.futures[h] is Some);
            }
            assert forall|k: int| 0 <= k < fin.pollables.len() implies {
                let f = #[trigger] fin.pollables[k];
                &&& f < fin.futures.len()
                &&& fin.futures[f as int] is Some
            } by {
                assert(g1.pollables[k] == fin.pollables[k]);
            }
        }
        assert(referenced_except(fin, Some(state))) by {
            assert forall|h: int| 0 <= h < fin.futures.len() && (#[trigger] fin.futures[h]) is Some && Some(state) != Some(h as u32) implies referenced(fin, h as u32) by {
                assert(g1.futures[h] is Some);
                assert(referenced(g1, h as u32));
            }
        }
        assert(cells_ok(fin)) by {
            assert forall|h: int, d: usize| #[trigger] call_refers_at(fin, h, d) implies live_cell(fin, d) by {
                assert(call_refers_at(g1, h, d));
            }
        }
        proof {
            let t = cs@.to_set();
            assert forall|i: int| 0 <= i < g1.pending.len() && !t.contains((#[trigger] g1.pending[i]).cell) implies pending_refers(
                fin,
                g1.pending[i].cell,
            ) by {
                assert(fin.pending[i] == g1.pending[i]);
            }
            assert forall|i: int|
                0 <= i < g1.listens.len() && (#[trigger] g1.listens[i]) is Some && !t.contains(
                    g1.listens[i]->0.cell,
                ) implies listen_refers(fin, g1.listens[i]->0.cell) by {
                assert(fin.listens[i] == g1.listens[i]);
            }
            assert forall|f: int, d: usize| #[trigger] call_refers_at(g1, f, d) && !t.contains(d) implies call_refers(fin, d) by {
                if f == state {
                    assert(cs@.contains(d));
                }
                assert(call_refers_at(fin, f, d));
            }
            lemma_held_persist(g1, fin, Set::empty(), t);
            assert(Set::<usize>::empty().union(t) =~= t);
        }
        self.release_all(&cs);
        proof {
            lemma_release_cells_frame(fin, cs@);
            lemma_shape_frame(fin, self@, Some(state));
            lemma_release_cells_all_held(fin, cs@, cs@.to_set());
        }
        self.collect(state);
        abandoned
    }

    /// The cells that call `f` has the host listen on, if it still runs.
    fn listened_cells(&self, f: u32) -> (r: Vec<usize>)
        requires
            f < self@.futures.len(),
            self@.futures[f as int] is Some,
        ensures
            r@ == match self@.futures[f as int]->0.state {
                FutureStateView::Pending { cancel_states, .. } => cancel_states,
                _ => Seq::empty(),
            },
    {
        match &self.futures[f as usize] {
            Some(e) => match &e.state {
                FutureState::Pending { cancel_states, .. } => copy_cells(cancel_states),
                _ => Vec::new(),
            },
            None => Vec::new(),
        }
    }

    /// Acts on one input from the host. Gives the call that the guest
    /// abandons, if any, whose future must then be dropped before the next
    /// input; and, for a finished wait that was not cancelled, the wait's
    /// own sender with the ready handle, which `deliver` then sends.
    pub fn handle_input(&mut self, input: PollInput) -> (r: (Option<u32>, Option<(Sender<u32>, u32)>))
        requires
            old(self).wf(),
            input_ok(old(self)@, input),
        ensures
            final(self).wf(),
            (final(self)@, r.0) == input_step(old(self)@, input),
            r.1 == delivery(old(self)@, input),
    {
        match input {
            PollInput::Listening { state, cancel } => {
                self.input_listening(state, cancel);
                (None, None)
            },
            PollInput::Ready { state, ready } => {
                let handed = self.input_ready(state, ready);
                (None, handed)
            },
            PollInput::Cancel { state, cancel } => (self.input_cancel(state, cancel), None),
            PollInput::CancelComplete(state) => {
                self.input_cancel_complete(state);
                (None, None)
            },
        }
    }

    /// Sends a finished task's ready handle to the wait behind `tx`. When
    /// that wait is gone the send fails and the handle is given up. Gives
    /// whether the handle reached the wait.
    pub fn deliver(&mut self, tx: Sender<u32>, ready: u32) -> (delivered: bool)
        requires
            old(self).wf(),
        ensures
            final(self).wf(),
            final(self)@ == (if delivered {
                old(self)@
            } else {
                GuestView { dropped: old(self)@.dropped.push(ready), ..old(self)@ }
            }),
    {
        match send_ready(tx, ready) {
            Ok(()) => true,
            Err(v) => {
                self.dropped.push(v);
                proof {
                    lemma_wf_frame(old(self)@, self@);
                }
                false
            },
        }
    }

    /// Replaces the flags of live call `f`, keeping its state.
    fn set_flags(&mut self, f: u32, ready_handle: bool, polling: bool)
        requires
            f < old(self)@.futures.len(),
            old(self)@.futures[f as int] is Some,
        ensures
            final(self)@ == (GuestView {
                futures: old(self)@.futures.update(
                    f as int,
                    Some(FutureView { ready_handle, polling, ..old(self)@.futures[f as int]->0 }),
                ),
                ..old(self)@
            }),
    {
        let ghost g = self@;
        let mut slot = None;
        std::mem::swap(&mut slot, &mut self.futures[f as usize]);
        let entry = slot.unwrap();
        assert(entry@ == g.futures[f as int]->0);
        let FutureEntry { pending_handle, ready_handle: _, polling: _, state } = entry;
        self.futures.set(f as usize, Some(FutureEntry { pending_handle, ready_handle, polling, state }));
        assert(self@.futures =~= g.futures.update(
            f as int,
            Some(FutureView { ready_handle, polling, ..g.futures[f as int]->0 }),
        ));
    }

    /// Lets go of the calls at the front of the poll queue that no longer
    /// run, and gives the first one that still runs, which stays at the
    /// front until `after_poll` reports how polling it went.
    pub fn next_pollable(&mut self) -> (r: Option<u32>)
        requires
            old(self).wf(),
        ensures
            final(self).wf(),
            final(self)@ == skip_settled(old(self)@),
            r matches Some(f) ==> {
                &&& final(self)@.pollables.len() > 0
                &&& final(self)@.pollables[0] == f
                &&& f < final(self)@.futures.len()
                &&& final(self)@.futures[f as int] is Some
                &&& final(self)@.futures[f as int]->0.state is Pending
            },
            r is None ==> final(self)@.pollables.len() == 0,
    {
        while self.pollables.len() > 0
            invariant
                self.wf(),
                skip_settled(self@) == skip_settled(old(self)@),
            decreases self@.pollables.len(),
        {
            let f = self.pollables[0];
            assert(self@.pollables[0] == f);
            let (running, ready_handle) = match &self.futures[f as usize] {
                Some(e) => (
                    match e.state {
                        FutureState::Pending { .. } => true,
                        _ => false,
                    },
                    e.ready_handle,
                ),
                None => (false, false),
            };
            if running {
                return Some(f);
            }
            let ghost g = self@;
            self.pollables.remove(0);
            self.set_flags(f, ready_handle, false);
            proof {
                assert(self@.pollables =~= dequeue(g, f).pollables);
                assert(self@ == dequeue(g, f));
                lemma_dequeue(g, Set::empty());
            }
            self.collect(f);
        }
        None
    }
    /// Reports how polling the call at the front of the poll queue went: a
    /// call that still runs hands its new waits to the host; a finished call
    /// gives up the registered waits, keeps its result, cancels its
    /// listeners and reports its ready handle with its key.
    pub fn after_poll(&mut self, outcome: Polled<V>)
        requires
            old(self).wf(),
            old(self)@.pollables.len() > 0,
            old(self)@.futures[old(self)@.pollables[0] as int]->0.state is Pending,
            outcome is Pending ==> old(self)@.pending.len() > 0 && old(self)@.listens.len()
                + old(self)@.pending.len() <= u32::MAX,
        ensures
            final(self).wf(),
            final(self)@ == after_poll_spec(old(self)@, outcome),
    {
        let ghost g = self@;
        let f = self.pollables[0];
        assert(g.pollables[0] == f);
        assert(f < g.futures.len() && g.futures[f as int] is Some);
        match outcome {
            Polled::Pending => {
                push_listens(self, f);
                let ghost g1 = self@;
                proof {
                    lemma_push_listen_all_frame(g, f, g.pending);
                }
                assert(g1.pollables == g.pollables && g1.futures == g.futures);
                let ready_handle = match &self.futures[f as usize] {
                    Some(e) => e.ready_handle,
                    None => false,
                };
                self.pollables.remove(0);
                self.set_flags(f, ready_handle, false);
                proof {
                    let target = after_poll_spec(g, outcome);
                    assert(self@.pollables =~= target.pollables);
                    assert(self@ == target);
                    assert(self@ == dequeue(g1, f));
                    lemma_dequeue(g1, Set::empty());
                    assert(g1.futures[f as int]->0.pending_handle);
                    assert(referenced(self@, f));
                }
            },
            Polled::Ready(v) => {
                self.clear_pending();
                let ghost g1 = self@;
                proof {
                    lemma_clear_pending_frame(g);
                }
                let ghost e = g1.futures[f as int]->0;
                let cs = self.listened_cells(f);
                assert forall|k: int| 0 <= k < cs@.len() implies live_cell(g1, #[trigger] cs@[k]) by {
                    assert(call_refers_at(g1, f as int, cs@[k]));
                }
                cancel_all(self, &cs);
                let ghost g1c = self@;
                let ghost g2 = GuestView {
                    pollables: g1.pollables.drop_first(),
                    futures: g1.futures.update(
                        f as int,
                        Some(
                            FutureView {
                                ready_handle: true,
                                polling: false,
                                state: FutureStateView::Ready(Some(v)),
                                ..e
                            },
                        ),
                    ),
                    ..g1
                };
                proof {
                    lemma_cancel_cells_frame(g1, g2, cs@);
                    lemma_cancel_cells_frame(g2, g1, cs@);
                }
                assert(g1c.futures == g1.futures && g1c.pollables == g1.pollables);
                let mut slot = None;
                std::mem::swap(&mut slot, &mut self.futures[f as usize]);
                let entry = slot.unwrap();
                assert(entry@ == e);
                let FutureEntry { pending_handle, ready_handle: _, polling: _, state: fs } = entry;
                assert(fs@ == e.state);
                let ready = match fs {
                    FutureState::Pending { ready, .. } => ready,
                    _ => None,
                };
                assert(ready == e.state->ready);
                let ghost g1r = GuestView {
                    futures: g1c.futures.update(
                        f as int,
                        Some(
                            FutureView {
                                ready_handle: true,
                                state: FutureStateView::Ready(Some(v)),
                                ..e
                            },
                        ),
                    ),
                    ..g1c
                };
                let ghost t = cs@.to_set();
                assert(guest_shape(g1r) && referenced_except(g1r, None) && cells_ok(g1r)) by {
                    assert forall|h: int| 0 <= h < g1r.futures.len() && (#[trigger] g1r.futures[h]) is Some implies referenced(g1r, h as u32) by {
                        assert(g1c.futures[h] is Some);
                        assert(referenced(g1c, h as u32));
                    }
                    assert forall|h: int| 0 <= h < g1r.futures.len() && (#[trigger] g1r.futures[h]) is Some implies (g1r.futures[h]->0.polling <==> g1r.pollables.contains(h as u32)) by {
                        assert(g1c.futures[h] is Some);
                    }
                    assert forall|h: int, d: usize| #[trigger] call_refers_at(g1r, h, d) implies live_cell(g1r, d) by {
                        assert(call_refers_at(g1c, h, d));
                    }
                }
                proof {
                    assert forall|i: int| 0 <= i < g1c.pending.len() && !t.contains((#[trigger] g1c.pending[i]).cell) implies pending_refers(
                        g1r,
                        g1c.pending[i].cell,
                    ) by {
                        assert(g1r.pending[i] == g1c.pending[i]);
                    }
                    assert forall|i: int|
                        0 <= i < g1c.listens.len() && (#[trigger] g1c.listens[i]) is Some && !t.contains(
                            g1c.listens[i]->0.cell,
                        ) implies listen_refers(g1r, g1c.listens[i]->0.cell) by {
                        assert(g1r.listens[i] == g1c.listens[i]);
                    }
                    assert forall|h: int, d: usize| #[trigger] call_refers_at(g1c, h, d) && !t.contains(d) implies call_refers(g1r, d) by {
                        if h == f {
                            assert(cs@.contains(d));
                        }
                        assert(call_refers_at(g1r, h, d));
                    }
                    lemma_held_persist(g1c, g1r, Set::empty(), t);
                    assert(Set::<usize>::empty().union(t) =~= t);
                }
                self.futures.set(
                    f as usize,
                    Some(
                        FutureEntry {
                            pending_handle,
                            ready_handle: true,
                            polling: false,
                            state: FutureState::Ready(Some(v)),
                        },
                    ),
                );
                self.pollables.remove(0);
                proof {
                    assert(g1r.pollables[0] == f);
                    assert(self@.pollables =~= dequeue(g1r, f).pollables);
                    assert(self@.futures =~= dequeue(g1r, f).futures);
                    assert(self@ == dequeue(g1r, f));
                    lemma_dequeue(g1r, t);
                    assert(referenced(self@, f));
                }
                let ghost g3 = self@;
                self.output.push(PollOutput::Ready { state: f, ready: ready.unwrap() });
                let ghost g4 = self@;
                proof {
                    lemma_shape_frame(g3, g4, None);
                    assert forall|h: int, d: usize| #[trigger] call_refers_at(g4, h, d) implies live_cell(g4, d) by {
                        assert(call_refers_at(g3, h, d));
                    }
                    lemma_held_same_refs(g3, g4, t);
                }
                self.release_all(&cs);
                proof {
                    lemma_release_cells_frame(g4, cs@);
                    lemma_shape_frame(g4, self@, None);
                    lemma_release_cells_all_held(g4, cs@, t);
                    let target = after_poll_spec(g, outcome);
                    assert(g3.futures =~= g2.futures);
                    assert(g3 == cancel_cells(g2, cs@));
                    assert(self@ == target);
                }
            },
        }
    }
}

/// Registers a wait for the task behind `pending`, with a new listener
/// cell in the first free slot, guarded by the wait; the sender receives
/// the ready handle once the task finished.
pub fn await_ready<V>(rt: &mut GuestRuntime<V>, pending: u32, tx: Sender<u32>) -> (cell: usize)
    requires
        old(rt).wf(),
    ensures
        final(rt).wf(),
        cell == first_free(old(rt)@.cells),
        final(rt)@ == (GuestView {
            cells: set_slot(
                old(rt)@.cells,
                cell as int,
                Cell { state: CancelState::Pending, guarded: true },
            ),
            pending: old(rt)@.pending.push(PendingView { pending, cell, tx }),
            ..old(rt)@
        }),
{
    let ghost g = rt@;
    let cell = free_slot(&rt.cells);
    proof {
        lemma_first_free(g.cells, cell as int);
    }
    let fresh = Cell { state: CancelState::Pending, guarded: true };
    if cell < rt.cells.len() {
        rt.cells.set(cell, Some(fresh));
    } else {
        rt.cells.push(Some(fresh));
    }
    let ghost sender = tx;
    rt.pending.push(PendingState { pending, tx, cell });
    let ghost g2 = GuestView {
        cells: set_slot(g.cells, cell as int, fresh),
        pending: g.pending.push(PendingView { pending, cell, tx: sender }),
        ..g
    };
    assert(rt@.pending =~= g2.pending);
    assert(rt@.cells =~= g2.cells);
    assert(rt@ == g2);
    assert forall|d: usize| live_cell(g, d) implies live_cell(g2, d) by {
        if d == cell {
            assert(false);
        }
    }
    assert(cells_ok(g2)) by {
        assert forall|i: int| 0 <= i < g2.pending.len() implies live_cell(g2, (#[trigger] g2.pending[i]).cell) by {
            if i < g.pending.len() {
                assert(live_cell(g, g.pending[i].cell));
            }
        }
        assert forall|i: int| 0 <= i < g2.listens.len() && (#[trigger] g2.listens[i]) is Some implies live_cell(
            g2,
            g2.listens[i]->0.cell,
        ) by {
            assert(live_cell(g, g.listens[i]->0.cell));
        }
        assert forall|h: int, d: usize| #[trigger] call_refers_at(g2, h, d) implies live_cell(g2, d) by {
            assert(call_refers_at(g, h, d));
        }
    }
    proof {
        lemma_shape_frame(g, g2, None);
        let t = set![cell];
        assert forall|i: int| 0 <= i < g.pending.len() && !t.contains((#[trigger] g.pending[i]).cell) implies pending_refers(
            g2,
            g.pending[i].cell,
        ) by {
            assert(g2.pending[i] == g.pending[i]);
        }
        assert forall|i: int|
            0 <= i < g.listens.len() && (#[trigger] g.listens[i]) is Some && !t.contains(g.listens[i]->0.cell) implies listen_refers(
            g2,
            g.listens[i]->0.cell,
        ) by {
            assert(g2.listens[i] == g.listens[i]);
        }
        assert forall|f: int, d: usize| #[trigger] call_refers_at(g, f, d) && !t.contains(d) implies call_refers(g2, d) by {
            assert(call_refers_at(g2, f, d));
        }
        lemma_held_persist(g, g2, Set::empty(), t);
        assert forall|d: usize| #[trigger] live_cell(g2, d) && !Set::<usize>::empty().contains(d) implies cell_referenced(g2, d) by {
            if d != cell {
                assert(!Set::<usize>::empty().union(t).contains(d));
            }
        }
    }
    cell
}

/// Cancels the listener cells one after the other.
pub fn cancel_all<V>(rt: &mut GuestRuntime<V>, cells: &Vec<usize>)
    requires
        old(rt).wf(),
        forall|k: int| 0 <= k < cells@.len() ==> live_cell(old(rt)@, #[trigger] cells@[k]),
    ensures
        final(rt).wf(),
        final(rt)@ == cancel_cells(old(rt)@, cells@),
{
    let mut i: usize = 0;
    while i < cells.len()
        invariant
            i <= cells@.len(),
            rt.wf(),
            rt@.cells.len() == old(rt)@.cells.len(),
            forall|k: int| 0 <= k < cells@.len() ==> live_cell(old(rt)@, #[trigger] cells@[k]),
            forall|d: usize| live_cell(old(rt)@, d) ==> live_cell(rt@, d),
            rt@ == cancel_cells(old(rt)@, cells@.take(i as int)),
        decreases cells@.len() - i,
    {
        assert(cells@.take(i as int + 1).drop_last() =~= cells@.take(i as int));
        assert(live_cell(rt@, cells@[i as int]));
        rt.cancel_one(cells[i]);
        i = i + 1;
    }
    assert(cells@.take(cells@.len() as int) =~= cells@);
}

/// Handles the waits of a call: if `A` is contained in `B`, a state that
/// holds its cells but those in `A` holds them but those in `B`.
proof fn lemma_held_weaken<V>(g: GuestView<V>, a: Set<usize>, b: Set<usize>)
    requires
        cells_held_except(g, a),
        forall|c: usize| a.contains(c) ==> b.contains(c),
    ensures
        cells_held_except(g, b),
{
}

/// Hands the registered waits of call `future` to the host: each becomes
/// a listener, announced by a listen output, in order.
pub fn push_listens<V>(rt: &mut GuestRuntime<V>, future: u32)
    requires
        old(rt).wf(),
        future < old(rt)@.futures.len(),
        old(rt)@.futures[future as int] is Some,
        old(rt)@.pending.len() > 0,
        old(rt)@.listens.len() + old(rt)@.pending.len() <= u32::MAX,
    ensures
        final(rt).wf(),
        final(rt)@ == push_listens_spec(old(rt)@, future),
{
    let ghost g0 = rt@;
    let ghost ps = g0.pending;
    let mut pending = Vec::new();
    std::mem::swap(&mut pending, &mut rt.pending);
    assert(pending@.map_values(|p: PendingState| p@) == ps);
    assert(rt@.pending =~= Seq::<PendingView>::empty());
    let ghost start = rt@;
    proof {
        lemma_shape_frame(g0, start, None);
        assert forall|f: int, d: usize| #[trigger] call_refers_at(start, f, d) implies live_cell(start, d) by {
            assert(call_refers_at(g0, f, d));
        }
        assert forall|i: int| 0 <= i < g0.pending.len() && !cells_from(ps, 0).contains((#[trigger] g0.pending[i]).cell) implies pending_refers(
            start,
            g0.pending[i].cell,
        ) by {
            assert(ps[i].cell == g0.pending[i].cell);
        }
        assert forall|i: int|
            0 <= i < g0.listens.len() && (#[trigger] g0.listens[i]) is Some && !cells_from(ps, 0).contains(
                g0.listens[i]->0.cell,
            ) implies listen_refers(start, g0.listens[i]->0.cell) by {
            assert(start.listens[i] == g0.listens[i]);
        }
        assert forall|f: int, d: usize| #[trigger] call_refers_at(g0, f, d) && !cells_from(ps, 0).contains(d) implies call_refers(start, d) by {
            assert(call_refers_at(start, f, d));
        }
        lemma_held_persist(g0, start, Set::empty(), cells_from(ps, 0));
        assert(Set::<usize>::empty().union(cells_from(ps, 0)) =~= cells_from(ps, 0));
    }
    assert(ps.take(0) =~= Seq::<PendingView>::empty());
    assert(rt@ == (GuestView { pending: Seq::empty(), ..push_listen_all(g0, future, ps.take(0)) }));
    assert(pending@.map_values(|p: PendingState| p@) =~= ps.skip(0));
    let mut k: usize = 0;
    let ghost n = ps.len();
    while pending.len() > 0
        invariant
            guest_shape(rt@),
            referenced_except(rt@, None),
            cells_ok(rt@),
            cells_held_except(rt@, cells_from(ps, k as int)),
            0 <= k <= n,
            n == ps.len(),
            pending@.len() == n - k,
            pending@.map_values(|p: PendingState| p@) == ps.skip(k as int),
            ps == g0.pending,
            guest_wf(g0),
            future < g0.futures.len(),
            g0.futures[future as int] is Some,
            rt@.listens.len() <= g0.listens.len() + k,
            g0.listens.len() + n <= u32::MAX,
            rt@.cells == g0.cells,
            rt@.futures == g0.futures,
            rt@ == (GuestView { pending: Seq::empty(), ..push_listen_all(g0, future, ps.take(k as int)) }),
        decreases pending@.len(),
    {
        let ghost before = rt@;
        let ghost before_p = pending@;
        let p = pending.remove(0);
        assert forall|j: int| 0 <= j < pending@.len() implies pending@[j] == before_p[j + 1] by {}
        assert forall|j: int| 0 <= j < pending@.len() implies #[trigger] pending@[j]@ == ps[k + 1 + j] by {
            assert(before_p.map_values(|p: PendingState| p@)[j + 1] == ps.skip(k as int)[j + 1]);
        }
        assert(p@ == ps[k as int]) by {
            assert(ps.skip(k as int)[0] == ps[k as int]);
        }
        assert(pending@.map_values(|p: PendingState| p@) =~= ps.skip(k as int + 1));
        assert(live_cell(rt@, p.cell)) by {
            assert(live_cell(g0, g0.pending[k as int].cell));
        }
        let PendingState { pending: handle, tx, cell } = p;
        let key = rt.add_listen(ListenState { tx, future, cell }, Ghost(cells_from(ps, k as int)));
        let ghost added = rt@;
        rt.output.push(PollOutput::Listen { state: key, pending: handle });
        proof {
            lemma_shape_frame(added, rt@, None);
            assert forall|f: int, d: usize| #[trigger] call_refers_at(rt@, f, d) implies live_cell(rt@, d) by {
                assert(call_refers_at(added, f, d));
            }
            lemma_held_same_refs(added, rt@, cells_from(ps, k as int).remove(cell));
            assert forall|c: usize| cells_from(ps, k as int).remove(cell).contains(c) implies cells_from(ps, k as int + 1).contains(c) by {
                let i = choose|i: int| k <= i < ps.len() && (#[trigger] ps[i]).cell == c;
                assert(i != k);
            }
            lemma_held_weaken(rt@, cells_from(ps, k as int).remove(cell), cells_from(ps, k as int + 1));
        }
        assert(ps.take(k as int + 1).drop_last() =~= ps.take(k as int));
        assert(rt@ == (GuestView {
            pending: Seq::empty(),
            ..push_listen(push_listen_all(g0, future, ps.take(k as int)), future, ps[k as int])
        }));
        k = k + 1;
    }
    assert(ps.take(n as int) =~= ps);
    assert(cells_from(ps, n as int) =~= Set::<usize>::empty());
}

/// Records the first poll of a guest call: a finished call gives up the
/// registered waits and hands its result back; a call that did not finish
/// is stored, hands its waits to the host, and is announced as pending.
pub fn first_poll<V, T>(rt: &mut GuestRuntime<V>, outcome: FirstPoll<T>) -> (r: Result<T, PendingCall>)
    requires
        old(rt).wf(),
        outcome is Pending ==> {
            &&& old(rt)@.pending.len() > 0
            &&& old(rt)@.futures.len() < u32::MAX
            &&& old(rt)@.listens.len() + old(rt)@.pending.len() <= u32::MAX
        },
    ensures
        final(rt).wf(),
        (final(rt)@, r) == first_poll_spec(old(rt)@, outcome),
{
    match outcome {
        FirstPoll::Ready(v) => {
            rt.clear_pending();
            Ok(v)
        },
        FirstPoll::Pending { pending, cancel, ready } => {
            let entry = FutureEntry {
                pending_handle: true,
                ready_handle: false,
                polling: false,
                state: FutureState::Pending { ready: Some(ready), cancel_states: Vec::new() },
            };
            assert(entry@ == new_future::<V>(ready)) by {
                assert(entry@.state->cancel_states =~= Seq::<usize>::empty());
            }
            let future = rt.add_future(entry);
            push_listens(rt, future);
            let ghost listened = rt@;
            rt.output.push(PollOutput::Pending { cancel, state: future });
            proof {
                lemma_wf_frame(listened, rt@);
            }
            Err(PendingCall { pending, future })
        },
    }
}

/// Collects the result of a finished call through the ready handle that
/// the host handed back and the call's key, which the host read from that
/// handle: the result is handed out, the call may go, and the ready handle
/// is given up.
pub fn get_ready<V>(rt: &mut GuestRuntime<V>, ready: u32, state: u32) -> (r: V)
    requires
        old(rt).wf(),
        state < old(rt)@.futures.len(),
        old(rt)@.futures[state as int] is Some,
        old(rt)@.futures[state as int]->0.ready_handle,
        kept_result(old(rt)@.futures[state as int]->0) is Some,
    ensures
        final(rt).wf(),
        Some(r) == kept_result(old(rt)@.futures[state as int]->0),
        final(rt)@ == ({
            let collected = collect(
                GuestView {
                    futures: old(rt)@.futures.update(
                        state as int,
                        Some(
                            FutureView {
                                ready_handle: false,
                                state: FutureStateView::Ready(None),
                                ..old(rt)@.futures[state as int]->0
                            },
                        ),
                    ),
                    ..old(rt)@
                },
                state,
            );
            GuestView { dropped: collected.dropped.push(ready), ..collected }
        }),
{
    let ghost g = rt@;
    let ghost e = g.futures[state as int]->0;
    let mut slot = None;
    std::mem::swap(&mut slot, &mut rt.futures[state as usize]);
    let entry = slot.unwrap();
    assert(entry@ == e);
    let FutureEntry { pending_handle, ready_handle: _, polling, state: fs } = entry;
    let value = match fs {
        FutureState::Ready(Some(v)) => v,
        _ => vstd::pervasive::unreached(),
    };
    rt.futures.set(
        state as usize,
        Some(
            FutureEntry {
                pending_handle,
                ready_handle: false,
                polling,
                state: FutureState::Ready(None),
            },
        ),
    );
    let ghost g1 = GuestView {
        futures: g.futures.update(
            state as int,
            Some(FutureView { ready_handle: false, state: FutureStateView::Ready(None), ..e }),
        ),
        ..g
    };
    assert(rt@.futures =~= g1.futures);
    assert(rt@ == g1);
    assert(guest_shape(g1)) by {
        assert forall|h: int| 0 <= h < g1.futures.len() && (#[trigger] g1.futures[h]) is Some implies (g1.futures[h]->0.polling <==> g1.pollables.contains(h as u32)) by {
            assert(g.futures[h] is Some);
        }
    }
    assert(referenced_except(g1, Some(state))) by {
        assert forall|h: int| 0 <= h < g1.futures.len() && (#[trigger] g1.futures[h]) is Some && Some(state) != Some(h as u32) implies referenced(g1, h as u32) by {
            assert(g.futures[h] is Some);
            assert(referenced(g, h as u32));
        }
    }
    assert(cells_ok(g1)) by {
        assert forall|h: int, d: usize| #[trigger] call_refers_at(g1, h, d) implies live_cell(g1, d) by {
            assert(call_refers_at(g, h, d));
        }
    }
    assert forall|h: int, d: usize| #[trigger] call_refers_at(g, h, d) implies call_refers_at(g1, h, d) by {}
    proof {
        lemma_held_same_refs(g, g1, Set::empty());
    }
    rt.collect(state);
    let ghost collected = rt@;
    rt.dropped.push(ready);
    proof {
        lemma_wf_frame(collected, rt@);
    }
    value
}

} // verus!
