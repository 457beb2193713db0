use futures::channel::oneshot;
use isyswasfa::host::{HostError, HostPoll, IsyswasfaCtx};
use isyswasfa::protocol::{PollInput, PollOutput};
use isyswasfa::routing::{AwaitReady, AwaitStep, HostEvent};
use isyswasfa::task::{HostValue, TaskInfo, TaskStatus};

#[test]
fn guest_task_handles_name_one_task() {
    let mut ctx = IsyswasfaCtx::new();
    let (pending, cancel, ready) = ctx.guest_pending().ok().unwrap();
    assert_eq!(pending, cancel);
    assert_eq!(cancel, ready);
    let (other, _, _) = ctx.guest_pending().ok().unwrap();
    assert_ne!(pending, other);
}

#[test]
fn guest_task_lives_until_its_third_handle_is_dropped() {
    let mut ctx = IsyswasfaCtx::new();
    let (pending, cancel, ready) = ctx.guest_pending().ok().unwrap();
    assert!(ctx.drop(pending).is_ok());
    assert!(matches!(ctx.guest_state(ready), Err(HostError::UnexpectedTaskState)));
    assert!(ctx.drop(cancel).is_ok());
    assert!(matches!(ctx.guest_state(ready), Err(HostError::UnexpectedTaskState)));
    assert!(ctx.drop(ready).is_ok());
    assert!(matches!(ctx.guest_state(ready), Err(HostError::Table(_))));
    assert!(matches!(ctx.drop(ready), Err(HostError::Table(_))));
}

#[test]
fn host_task_ends_with_its_one_handle() {
    let mut ctx = IsyswasfaCtx::new();
    let (tx, mut rx) = oneshot::channel::<()>();
    let rep = ctx.host_pending(tx).ok().unwrap();
    assert!(matches!(rx.try_recv(), Ok(None)));
    assert!(ctx.drop(rep).is_ok());
    assert!(rx.try_recv().is_err());
    assert!(matches!(ctx.drop(rep), Err(HostError::Table(_))));
}

#[test]
fn drop_of_unknown_handle_fails() {
    let mut ctx = IsyswasfaCtx::new();
    assert!(matches!(ctx.drop(42), Err(HostError::Table(_))));
    assert!(matches!(ctx.guest_state(42), Err(HostError::Table(_))));
    assert!(matches!(ctx.get_ready(42), Err(HostError::Table(_))));
}

#[test]
fn collecting_a_host_result_gives_the_value_and_returns_its_handle() {
    let mut ctx = IsyswasfaCtx::new();
    let (tx, _rx) = oneshot::channel::<()>();
    let rep = ctx.host_pending(tx).ok().unwrap();
    assert!(matches!(ctx.get_ready(rep), Err(HostError::UnexpectedTaskState)));
    let listen = ctx.host_ready(rep, HostValue(Box::new(String::from("done")))).ok().unwrap();
    assert!(listen.is_none());
    let value = ctx.get_ready(rep).ok().unwrap();
    assert_eq!(value.0.downcast_ref::<String>().unwrap(), "done");
    // one handle remains: the one the host call started with
    assert!(ctx.drop(rep).is_ok());
    assert!(matches!(ctx.drop(rep), Err(HostError::Table(_))));
}

#[test]
fn ready_output_for_the_awaited_task_finishes_the_wait() {
    let mut ctx = IsyswasfaCtx::new();
    let (pending, _cancel, ready) = ctx.guest_pending().ok().unwrap();
    let mut aw = AwaitReady::new(pending);
    assert!(matches!(aw.next_step(&mut ctx), Ok(AwaitStep::WaitForHost)));
    let output = PollOutput::Ready { state: 7, ready };
    assert!(aw.output_acceptable(&ctx, output));
    assert!(aw.handle_output(&mut ctx, 0, output).is_ok());
    assert!(matches!(ctx.guest_state(ready), Ok(7)));
    assert!(matches!(aw.next_step(&mut ctx), Ok(AwaitStep::Finished(r)) if r == ready));
    // the pending handle was dropped: two handles are left
    assert!(ctx.drop(ready).is_ok());
    assert!(ctx.drop(ready).is_ok());
    assert!(matches!(ctx.guest_state(ready), Err(HostError::Table(_))));
}

#[test]
fn listening_on_a_host_task_queues_a_listening_input() {
    let mut ctx = IsyswasfaCtx::new();
    let (pending, _c, _r) = ctx.guest_pending().ok().unwrap();
    let (tx, _rx) = oneshot::channel::<()>();
    let host = ctx.host_pending(tx).ok().unwrap();
    let mut aw = AwaitReady::new(pending);
    assert!(aw.handle_output(&mut ctx, 1, PollOutput::Listen { state: 9, pending: host }).is_ok());
    assert!(matches!(aw.next_step(&mut ctx), Ok(AwaitStep::Continue)));
    assert_eq!(aw.take_input(0), vec![]);
    assert_eq!(aw.take_input(1), vec![PollInput::Listening { state: 9, cancel: host }]);
    assert_eq!(aw.take_input(1), vec![]);
    assert!(matches!(aw.next_step(&mut ctx), Ok(AwaitStep::WaitForHost)));
}

#[test]
fn host_result_goes_to_the_poll_function_that_listens() {
    let mut ctx = IsyswasfaCtx::new();
    let (pending, _c, _r) = ctx.guest_pending().ok().unwrap();
    let (tx, _rx) = oneshot::channel::<()>();
    let host = ctx.host_pending(tx).ok().unwrap();
    let mut aw = AwaitReady::new(pending);
    assert!(aw.handle_output(&mut ctx, 2, PollOutput::Listen { state: 5, pending: host }).is_ok());
    let _ = aw.take_input(2);
    assert!(aw.host_task_ready(&mut ctx, host, HostValue(Box::new(3u8))).is_ok());
    assert_eq!(aw.take_input(2), vec![PollInput::Ready { state: 5, ready: host }]);
}

#[test]
fn listening_on_a_finished_host_task_queues_its_result() {
    let mut ctx = IsyswasfaCtx::new();
    let (pending, _c, _r) = ctx.guest_pending().ok().unwrap();
    let (tx, _rx) = oneshot::channel::<()>();
    let host = ctx.host_pending(tx).ok().unwrap();
    let mut aw = AwaitReady::new(pending);
    assert!(aw.host_task_ready(&mut ctx, host, HostValue(Box::new(3u8))).is_ok());
    assert!(matches!(aw.next_step(&mut ctx), Ok(AwaitStep::WaitForHost)));
    assert!(aw.handle_output(&mut ctx, 0, PollOutput::Listen { state: 4, pending: host }).is_ok());
    assert_eq!(aw.take_input(0), vec![PollInput::Ready { state: 4, ready: host }]);
}

#[test]
fn cancelling_a_listened_host_task_cancels_the_call_and_completes() {
    let mut ctx = IsyswasfaCtx::new();
    let (pending, _c, _r) = ctx.guest_pending().ok().unwrap();
    let (tx, mut rx) = oneshot::channel::<()>();
    let host = ctx.host_pending(tx).ok().unwrap();
    let mut aw = AwaitReady::new(pending);
    assert!(aw.handle_output(&mut ctx, 0, PollOutput::Listen { state: 8, pending: host }).is_ok());
    let _ = aw.take_input(0);
    let output = PollOutput::Cancel(host);
    assert!(aw.output_acceptable(&ctx, output));
    assert!(aw.handle_output(&mut ctx, 0, output).is_ok());
    // the sender was dropped, which cancels the host call
    assert!(rx.try_recv().is_err());
    // the task's only handle was dropped with it
    assert!(matches!(ctx.drop(host), Err(HostError::Table(_))));
    assert_eq!(aw.take_input(0), vec![PollInput::CancelComplete(8)]);
}

#[test]
fn cancel_without_a_listener_is_not_acceptable() {
    let mut ctx = IsyswasfaCtx::new();
    let (pending, _c, _r) = ctx.guest_pending().ok().unwrap();
    let (tx, _rx) = oneshot::channel::<()>();
    let host = ctx.host_pending(tx).ok().unwrap();
    let aw = AwaitReady::new(pending);
    assert!(!aw.output_acceptable(&ctx, PollOutput::Cancel(host)));
    assert!(!aw.output_acceptable(&ctx, PollOutput::CancelComplete(host)));
    assert!(!aw.output_acceptable(&ctx, PollOutput::Pending { state: 1, cancel: host }));
    assert!(aw.output_acceptable(&ctx, PollOutput::Pending { state: 1, cancel: pending }));
    assert!(aw.output_acceptable(&ctx, PollOutput::Cancel(999)));
}

#[test]
fn listening_on_a_guest_task_without_a_cancel_target_drops_the_handle() {
    let mut ctx = IsyswasfaCtx::new();
    let (pending, _c, _r) = ctx.guest_pending().ok().unwrap();
    let (other, _oc, oready) = ctx.guest_pending().ok().unwrap();
    let mut aw = AwaitReady::new(pending);
    assert!(aw.handle_output(&mut ctx, 0, PollOutput::Listen { state: 3, pending: other }).is_ok());
    assert!(matches!(aw.next_step(&mut ctx), Ok(AwaitStep::WaitForHost)));
    // three handles minus the dropped pending handle
    assert!(ctx.drop(oready).is_ok());
    assert!(ctx.drop(oready).is_ok());
    assert!(matches!(ctx.drop(oready), Err(HostError::Table(_))));
}

#[test]
fn pending_guest_call_routes_cancellation_to_its_poll_function() {
    let mut ctx = IsyswasfaCtx::new();
    let (pending, _c, _r) = ctx.guest_pending().ok().unwrap();
    let (other, ocancel, _or) = ctx.guest_pending().ok().unwrap();
    let mut aw = AwaitReady::new(pending);
    // poll function 1 reports its call pending; poll function 0 listens to it
    assert!(aw.handle_output(&mut ctx, 1, PollOutput::Pending { state: 11, cancel: ocancel }).is_ok());
    assert!(aw.handle_output(&mut ctx, 0, PollOutput::Listen { state: 12, pending: other }).is_ok());
    assert_eq!(aw.take_input(0), vec![PollInput::Listening { state: 12, cancel: other }]);
    // poll function 0 cancels its wait: the cancel goes to poll function 1,
    // with poll function 1's own key for the call
    assert!(aw.handle_output(&mut ctx, 0, PollOutput::Cancel(ocancel)).is_ok());
    assert_eq!(aw.take_input(1), vec![PollInput::Cancel { state: 11, cancel: ocancel }]);
    // poll function 1 finishes cancelling: the completion goes to poll function 0
    assert!(aw.handle_output(&mut ctx, 1, PollOutput::CancelComplete(ocancel)).is_ok());
    assert_eq!(aw.take_input(0), vec![PollInput::CancelComplete(12)]);
}

#[test]
fn pending_output_for_the_awaited_task_drops_its_cancel_handle() {
    let mut ctx = IsyswasfaCtx::new();
    let (pending, cancel, ready) = ctx.guest_pending().ok().unwrap();
    let mut aw = AwaitReady::new(pending);
    assert!(aw.handle_output(&mut ctx, 0, PollOutput::Pending { state: 1, cancel }).is_ok());
    assert!(ctx.drop(ready).is_ok());
    assert!(ctx.drop(ready).is_ok());
    assert!(matches!(ctx.drop(ready), Err(HostError::Table(_))));
}

#[test]
fn output_about_an_unknown_task_fails_and_changes_nothing() {
    let mut ctx = IsyswasfaCtx::new();
    let (pending, _c, _r) = ctx.guest_pending().ok().unwrap();
    let mut aw = AwaitReady::new(pending);
    assert!(matches!(
        aw.handle_output(&mut ctx, 0, PollOutput::Listen { state: 1, pending: 77 }),
        Err(HostError::Table(_))
    ));
    assert!(matches!(aw.next_step(&mut ctx), Ok(AwaitStep::WaitForHost)));
}

#[test]
fn ready_output_of_another_listened_guest_task_is_forwarded() {
    let mut ctx = IsyswasfaCtx::new();
    let (pending, _c, _r) = ctx.guest_pending().ok().unwrap();
    let (other, _oc, oready) = ctx.guest_pending().ok().unwrap();
    let mut aw = AwaitReady::new(pending);
    assert!(aw.handle_output(&mut ctx, 1, PollOutput::Pending { state: 2, cancel: other }).is_ok());
    assert!(aw.handle_output(&mut ctx, 0, PollOutput::Listen { state: 6, pending: other }).is_ok());
    let _ = aw.take_input(0);
    assert!(aw.handle_output(&mut ctx, 1, PollOutput::Ready { state: 40, ready: oready }).is_ok());
    assert_eq!(aw.take_input(0), vec![PollInput::Ready { state: 6, ready: oready }]);
    // an unlistened guest task records its result instead
    let (third, _tc, tready) = ctx.guest_pending().ok().unwrap();
    assert!(aw.handle_output(&mut ctx, 1, PollOutput::Ready { state: 41, ready: tready }).is_ok());
    assert!(matches!(ctx.guest_state(third), Ok(41)));
}

#[test]
fn reference_counts_follow_the_handles() {
    let mut ctx = IsyswasfaCtx::new();
    let (pending, _c, _r) = ctx.guest_pending().ok().unwrap();
    assert_eq!(
        ctx.task(pending),
        Some(TaskInfo {
            reference_count: 3,
            state: TaskStatus::GuestPending { on_cancel: None },
            listen: None,
        })
    );
    assert!(ctx.drop(pending).is_ok());
    assert_eq!(ctx.task(pending).unwrap().reference_count, 2);
    assert!(ctx.drop(pending).is_ok());
    assert_eq!(ctx.task(pending).unwrap().reference_count, 1);
    assert!(ctx.drop(pending).is_ok());
    assert_eq!(ctx.task(pending), None);
}

#[test]
fn a_finished_host_call_gains_a_handle_until_collected() {
    let mut ctx = IsyswasfaCtx::new();
    let (tx, _rx) = oneshot::channel::<()>();
    let rep = ctx.host_pending(tx).ok().unwrap();
    assert_eq!(ctx.task(rep).unwrap().state, TaskStatus::HostPending { cancel_held: true });
    assert!(ctx.host_ready(rep, HostValue(Box::new(1u8))).is_ok());
    let task = ctx.task(rep).unwrap();
    assert_eq!(task.reference_count, 2);
    assert_eq!(task.state, TaskStatus::HostReady { value_held: true });
    assert!(ctx.get_ready(rep).is_ok());
    let task = ctx.task(rep).unwrap();
    assert_eq!(task.reference_count, 1);
    assert_eq!(task.state, TaskStatus::HostReady { value_held: false });
}

#[test]
fn first_poll_of_a_finished_host_call_drops_its_task() {
    let mut ctx = IsyswasfaCtx::new();
    let (tx, mut rx) = oneshot::channel::<()>();
    let rep = ctx.host_pending(tx).ok().unwrap();
    let r = ctx.first_poll(rep, HostPoll::Ready(5u32));
    assert_eq!(r.ok(), Some(Ok(5)));
    assert!(ctx.task(rep).is_none());
    // the sender went with the task
    assert!(rx.try_recv().is_err());
}

#[test]
fn first_poll_of_a_pending_host_call_keeps_its_task() {
    let mut ctx = IsyswasfaCtx::new();
    let (tx, _rx) = oneshot::channel::<()>();
    let rep = ctx.host_pending(tx).ok().unwrap();
    let r = ctx.first_poll::<u32>(rep, HostPoll::Pending);
    assert_eq!(r.ok(), Some(Err(rep)));
    let task = ctx.task(rep).unwrap();
    assert_eq!(task.reference_count, 1);
    assert_eq!(task.state, TaskStatus::HostPending { cancel_held: true });
}

#[test]
fn first_poll_of_an_unknown_task_fails() {
    let mut ctx = IsyswasfaCtx::new();
    assert!(matches!(ctx.first_poll(7, HostPoll::Ready(1u32)), Err(HostError::Table(_))));
}

#[test]
fn guest_task_creation_succeeds_on_a_table_with_room() {
    let mut ctx = IsyswasfaCtx::new();
    for _ in 0..100 {
        assert!(ctx.guest_pending().is_ok());
        let (tx, _rx) = oneshot::channel::<()>();
        assert!(ctx.host_pending(tx).is_ok());
    }
}

#[test]
fn collecting_gives_the_stored_result() {
    let mut ctx = IsyswasfaCtx::new();
    let (tx1, _rx1) = oneshot::channel::<()>();
    let (tx2, _rx2) = oneshot::channel::<()>();
    let a = ctx.host_pending(tx1).ok().unwrap();
    let b = ctx.host_pending(tx2).ok().unwrap();
    assert!(ctx.host_ready(a, HostValue(Box::new(String::from("first")))).is_ok());
    assert!(ctx.host_ready(b, HostValue(Box::new(String::from("second")))).is_ok());
    let second = ctx.get_ready(b).ok().unwrap();
    assert_eq!(*second.0.downcast::<String>().unwrap(), "second");
    let first = ctx.get_ready(a).ok().unwrap();
    assert_eq!(*first.0.downcast::<String>().unwrap(), "first");
}

#[test]
fn waiting_with_no_host_call_left_fails() {
    let mut ctx = IsyswasfaCtx::new();
    let (pending, _c, _r) = ctx.guest_pending().ok().unwrap();
    let mut aw = AwaitReady::new(pending);
    assert!(matches!(aw.next_step(&mut ctx), Ok(AwaitStep::WaitForHost)));
    assert!(matches!(aw.host_event(&mut ctx, HostEvent::Ended), Err(HostError::NoPendingHostTasks)));
    assert_eq!(ctx.task(pending).unwrap().reference_count, 3);
}

#[test]
fn a_finished_host_call_event_routes_its_result() {
    let mut ctx = IsyswasfaCtx::new();
    let (pending, _c, _r) = ctx.guest_pending().ok().unwrap();
    let (tx, _rx) = oneshot::channel::<()>();
    let host = ctx.host_pending(tx).ok().unwrap();
    let mut aw = AwaitReady::new(pending);
    assert!(aw.handle_output(&mut ctx, 2, PollOutput::Listen { state: 4, pending: host }).is_ok());
    assert_eq!(aw.take_input(2), vec![PollInput::Listening { state: 4, cancel: host }]);
    assert!(aw.host_event(&mut ctx, HostEvent::Finished(host, HostValue(Box::new(9u8)))).is_ok());
    assert_eq!(aw.take_input(2), vec![PollInput::Ready { state: 4, ready: host }]);
    assert_eq!(ctx.task(host).unwrap().state, TaskStatus::HostReady { value_held: true });
}
