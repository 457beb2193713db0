use futures::channel::oneshot;
use isyswasfa::guest::{
    await_ready, cancel_all, first_poll, get_ready, push_listens, FirstPoll, GuestRuntime,
    PendingCall, Polled,
};
use isyswasfa::protocol::{PollInput, PollOutput};

#[test]
fn first_poll_that_finishes_gives_up_its_waits() {
    let mut rt: GuestRuntime<u64> = GuestRuntime::new();
    let (tx, _rx) = oneshot::channel::<u32>();
    await_ready(&mut rt, 21, tx);
    let r = first_poll(&mut rt, FirstPoll::Ready(String::from("done")));
    assert_eq!(r.ok().unwrap(), "done");
    assert_eq!(rt.take_output(), vec![]);
    assert_eq!(rt.take_dropped(), vec![21]);
}

#[test]
fn first_poll_that_waits_announces_each_wait_then_the_call() {
    let mut rt: GuestRuntime<u64> = GuestRuntime::new();
    let (tx1, _rx1) = oneshot::channel::<u32>();
    let (tx2, _rx2) = oneshot::channel::<u32>();
    await_ready(&mut rt, 31, tx1);
    await_ready(&mut rt, 32, tx2);
    let r = first_poll::<u64, String>(&mut rt, FirstPoll::Pending { pending: 40, cancel: 41, ready: 42 });
    let call = match r {
        Err(call) => call,
        Ok(_) => panic!("the call should be pending"),
    };
    assert_eq!(call, PendingCall { pending: 40, future: 0 });
    assert_eq!(
        rt.take_output(),
        vec![
            PollOutput::Listen { state: 0, pending: 31 },
            PollOutput::Listen { state: 1, pending: 32 },
            PollOutput::Pending { cancel: 41, state: 0 },
        ]
    );
    assert_eq!(rt.take_dropped(), vec![]);
}

#[test]
fn finished_wait_wakes_its_future_and_the_call_reports_ready() {
    let mut rt: GuestRuntime<u64> = GuestRuntime::new();
    let (tx, mut rx) = oneshot::channel::<u32>();
    await_ready(&mut rt, 31, tx);
    let call = first_poll::<u64, u64>(&mut rt, FirstPoll::Pending { pending: 40, cancel: 41, ready: 42 })
        .err()
        .unwrap();
    let _ = rt.take_output();
    assert_eq!(rt.handle_input(PollInput::Listening { state: 0, cancel: 50 }).0, None);
    let (abandoned, handed) = rt.handle_input(PollInput::Ready { state: 0, ready: 51 });
    assert_eq!(abandoned, None);
    let (tx, ready) = handed.unwrap();
    assert_eq!(ready, 51);
    assert!(rt.deliver(tx, ready));
    // the ready handle reached the waiting future
    assert_eq!(rx.try_recv().unwrap(), Some(51));
    // the host's listening handle is given up
    assert_eq!(rt.take_dropped(), vec![50]);
    assert_eq!(rt.next_pollable(), Some(call.future));
    rt.after_poll(Polled::Ready(99));
    assert_eq!(rt.next_pollable(), None);
    assert_eq!(rt.take_output(), vec![PollOutput::Ready { state: call.future, ready: 42 }]);
    assert_eq!(get_ready(&mut rt, 42, call.future), 99);
    assert_eq!(rt.take_output(), vec![]);
    // the ready handle that the host handed back is given up
    assert_eq!(rt.take_dropped(), vec![42]);
}

#[test]
fn wait_on_a_future_that_is_gone_gives_up_the_ready_handle() {
    let mut rt: GuestRuntime<u64> = GuestRuntime::new();
    let (tx, rx) = oneshot::channel::<u32>();
    await_ready(&mut rt, 31, tx);
    let _ = first_poll::<u64, u64>(&mut rt, FirstPoll::Pending { pending: 40, cancel: 41, ready: 42 });
    drop(rx);
    let (abandoned, handed) = rt.handle_input(PollInput::Ready { state: 0, ready: 51 });
    assert_eq!(abandoned, None);
    let (tx, ready) = handed.unwrap();
    assert_eq!(rt.take_dropped(), vec![]);
    assert!(!rt.deliver(tx, ready));
    assert_eq!(rt.take_dropped(), vec![51]);
}

#[test]
fn call_still_waiting_after_a_poll_announces_its_new_waits() {
    let mut rt: GuestRuntime<u64> = GuestRuntime::new();
    let (tx, _rx) = oneshot::channel::<u32>();
    await_ready(&mut rt, 31, tx);
    let call = first_poll::<u64, u64>(&mut rt, FirstPoll::Pending { pending: 40, cancel: 41, ready: 42 })
        .err()
        .unwrap();
    let _ = rt.take_output();
    let (abandoned, handed) = rt.handle_input(PollInput::Ready { state: 0, ready: 51 });
    assert_eq!(abandoned, None);
    let (tx, ready) = handed.unwrap();
    assert!(rt.deliver(tx, ready));
    assert_eq!(rt.next_pollable(), Some(call.future));
    let (tx2, _rx2) = oneshot::channel::<u32>();
    await_ready(&mut rt, 33, tx2);
    rt.after_poll(Polled::Pending);
    // the freed listener key is used again
    assert_eq!(rt.take_output(), vec![PollOutput::Listen { state: 0, pending: 33 }]);
    assert_eq!(rt.next_pollable(), None);
}

#[test]
fn cancelling_a_call_cancels_its_listeners_and_completes() {
    let mut rt: GuestRuntime<u64> = GuestRuntime::new();
    let (tx, _rx) = oneshot::channel::<u32>();
    await_ready(&mut rt, 31, tx);
    let call = first_poll::<u64, u64>(&mut rt, FirstPoll::Pending { pending: 40, cancel: 41, ready: 42 })
        .err()
        .unwrap();
    let _ = rt.take_output();
    assert_eq!(rt.handle_input(PollInput::Listening { state: 0, cancel: 50 }).0, None);
    let abandoned = rt.handle_input(PollInput::Cancel { state: call.future, cancel: 60 }).0;
    assert_eq!(abandoned, Some(call.future));
    // the host is told to stop listening; the call's listener keeps it alive
    assert_eq!(rt.take_output(), vec![PollOutput::Cancel(50)]);
    assert_eq!(rt.take_dropped(), vec![42]);
    // once the listener's cancellation completes, so does the call's
    assert_eq!(rt.handle_input(PollInput::CancelComplete(0)).0, None);
    assert_eq!(rt.take_output(), vec![PollOutput::CancelComplete(60)]);
}

#[test]
fn cancelling_a_call_without_listeners_completes_at_once() {
    let mut rt: GuestRuntime<u64> = GuestRuntime::new();
    let (tx, _rx) = oneshot::channel::<u32>();
    await_ready(&mut rt, 31, tx);
    let call = first_poll::<u64, u64>(&mut rt, FirstPoll::Pending { pending: 40, cancel: 41, ready: 42 })
        .err()
        .unwrap();
    let _ = rt.take_output();
    // the host cancels the only wait before listening, then the call
    assert_eq!(rt.handle_input(PollInput::CancelComplete(0)).0, None);
    assert_eq!(rt.handle_input(PollInput::Cancel { state: call.future, cancel: 60 }).0, Some(call.future));
    assert_eq!(rt.take_output(), vec![PollOutput::CancelComplete(60)]);
}

#[test]
fn listening_on_a_cancelled_wait_is_refused_at_once() {
    let mut rt: GuestRuntime<u64> = GuestRuntime::new();
    let (tx, _rx) = oneshot::channel::<u32>();
    let cell = await_ready(&mut rt, 31, tx);
    let _ = first_poll::<u64, u64>(&mut rt, FirstPoll::Pending { pending: 40, cancel: 41, ready: 42 });
    let _ = rt.take_output();
    rt.cancel_on_drop(cell);
    assert_eq!(rt.take_output(), vec![]);
    assert_eq!(rt.handle_input(PollInput::Listening { state: 0, cancel: 50 }).0, None);
    assert_eq!(rt.take_output(), vec![PollOutput::Cancel(50)]);
}

#[test]
fn cancelling_cells_twice_tells_the_host_once() {
    let mut rt: GuestRuntime<u64> = GuestRuntime::new();
    let (tx1, _rx1) = oneshot::channel::<u32>();
    let (tx2, _rx2) = oneshot::channel::<u32>();
    let c1 = await_ready(&mut rt, 31, tx1);
    let c2 = await_ready(&mut rt, 32, tx2);
    let _ = first_poll::<u64, u64>(&mut rt, FirstPoll::Pending { pending: 40, cancel: 41, ready: 42 });
    let _ = rt.take_output();
    assert_eq!(rt.handle_input(PollInput::Listening { state: 1, cancel: 52 }).0, None);
    let cells = vec![c2, c1, c2];
    cancel_all(&mut rt, &cells);
    assert_eq!(rt.take_output(), vec![PollOutput::Cancel(52)]);
    cancel_all(&mut rt, &cells);
    assert_eq!(rt.take_output(), vec![]);
}

#[test]
fn push_listens_hands_over_every_registered_wait() {
    let mut rt: GuestRuntime<u64> = GuestRuntime::new();
    let (tx, _rx) = oneshot::channel::<u32>();
    await_ready(&mut rt, 31, tx);
    let call = first_poll::<u64, u64>(&mut rt, FirstPoll::Pending { pending: 40, cancel: 41, ready: 42 })
        .err()
        .unwrap();
    let _ = rt.take_output();
    let (tx2, _rx2) = oneshot::channel::<u32>();
    let (tx3, _rx3) = oneshot::channel::<u32>();
    await_ready(&mut rt, 33, tx2);
    await_ready(&mut rt, 34, tx3);
    push_listens(&mut rt, call.future);
    assert_eq!(
        rt.take_output(),
        vec![PollOutput::Listen { state: 1, pending: 33 }, PollOutput::Listen { state: 2, pending: 34 }]
    );
}

#[test]
fn a_cell_is_reused_once_nothing_refers_to_it() {
    let mut rt: GuestRuntime<u64> = GuestRuntime::new();
    let (tx1, _rx1) = oneshot::channel::<u32>();
    let c1 = await_ready(&mut rt, 21, tx1);
    assert_eq!(c1, 0);
    assert!(rt.guards(c1));
    // the call finishes at once: the wait is given up, but its guard still holds the cell
    let r = first_poll(&mut rt, FirstPoll::Ready(7u64));
    assert_eq!(r.ok(), Some(7));
    assert!(rt.guards(c1));
    let (tx2, _rx2) = oneshot::channel::<u32>();
    let c2 = await_ready(&mut rt, 22, tx2);
    assert_eq!(c2, 1);
    // dropping the guard lets the cell go, and the next wait takes its slot
    rt.cancel_on_drop(c1);
    assert!(!rt.guards(c1));
    assert_eq!(rt.take_output(), vec![]);
    let (tx3, _rx3) = oneshot::channel::<u32>();
    let c3 = await_ready(&mut rt, 23, tx3);
    assert_eq!(c3, 0);
    assert!(rt.guards(c2));
}

#[test]
fn a_listened_cell_stays_until_its_listener_and_guard_are_gone() {
    let mut rt: GuestRuntime<u64> = GuestRuntime::new();
    let (tx, _rx) = oneshot::channel::<u32>();
    let cell = await_ready(&mut rt, 31, tx);
    let _ = first_poll::<u64, u64>(&mut rt, FirstPoll::Pending { pending: 40, cancel: 41, ready: 42 });
    let _ = rt.take_output();
    assert_eq!(rt.handle_input(PollInput::Listening { state: 0, cancel: 50 }).0, None);
    // the guard goes first: the listening host is told to stop, the cell stays
    rt.cancel_on_drop(cell);
    assert_eq!(rt.take_output(), vec![PollOutput::Cancel(50)]);
    let (tx2, _rx2) = oneshot::channel::<u32>();
    assert_eq!(await_ready(&mut rt, 32, tx2), 1);
}

#[test]
fn a_cancelled_wait_gets_no_ready_handle() {
    let mut rt: GuestRuntime<u64> = GuestRuntime::new();
    let (tx, _rx) = oneshot::channel::<u32>();
    let cell = await_ready(&mut rt, 31, tx);
    let _ = first_poll::<u64, u64>(&mut rt, FirstPoll::Pending { pending: 40, cancel: 41, ready: 42 });
    rt.cancel_on_drop(cell);
    let (abandoned, handed) = rt.handle_input(PollInput::Ready { state: 0, ready: 51 });
    assert_eq!(abandoned, None);
    assert!(handed.is_none());
    assert_eq!(rt.take_dropped(), vec![51]);
}

#[test]
fn each_listener_hands_the_ready_handle_to_its_own_wait() {
    let mut rt: GuestRuntime<u64> = GuestRuntime::new();
    let (tx1, mut rx1) = oneshot::channel::<u32>();
    let (tx2, mut rx2) = oneshot::channel::<u32>();
    await_ready(&mut rt, 31, tx1);
    await_ready(&mut rt, 32, tx2);
    let _ = first_poll::<u64, u64>(&mut rt, FirstPoll::Pending { pending: 40, cancel: 41, ready: 42 });
    // the second wait finishes first
    let (_, handed) = rt.handle_input(PollInput::Ready { state: 1, ready: 62 });
    let (tx, ready) = handed.unwrap();
    assert!(rt.deliver(tx, ready));
    assert_eq!(rx2.try_recv().unwrap(), Some(62));
    assert_eq!(rx1.try_recv().unwrap(), None);
    let (_, handed) = rt.handle_input(PollInput::Ready { state: 0, ready: 61 });
    let (tx, ready) = handed.unwrap();
    assert!(rt.deliver(tx, ready));
    assert_eq!(rx1.try_recv().unwrap(), Some(61));
}

#[test]
fn outputs_accumulate_in_order_until_taken() {
    let mut rt: GuestRuntime<u64> = GuestRuntime::new();
    let (tx1, _rx1) = oneshot::channel::<u32>();
    let (tx2, _rx2) = oneshot::channel::<u32>();
    let c1 = await_ready(&mut rt, 31, tx1);
    await_ready(&mut rt, 32, tx2);
    let call = first_poll::<u64, u64>(&mut rt, FirstPoll::Pending { pending: 40, cancel: 41, ready: 42 })
        .err()
        .unwrap();
    assert_eq!(rt.handle_input(PollInput::Listening { state: 0, cancel: 50 }).0, None);
    rt.cancel_on_drop(c1);
    assert_eq!(rt.handle_input(PollInput::Listening { state: 1, cancel: 51 }).0, None);
    assert_eq!(rt.handle_input(PollInput::Cancel { state: call.future, cancel: 60 }).0, Some(call.future));
    assert_eq!(
        rt.take_output(),
        vec![
            PollOutput::Listen { state: 0, pending: 31 },
            PollOutput::Listen { state: 1, pending: 32 },
            PollOutput::Pending { cancel: 41, state: call.future },
            PollOutput::Cancel(50),
            PollOutput::Cancel(51),
        ]
    );
    assert_eq!(rt.take_output(), vec![]);
}
