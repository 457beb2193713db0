use isyswasfa::world::{CallAction, CallEvent, OriginalWorldAsync};

#[test]
fn call_through_the_world_follows_the_protocol() {
    let world = OriginalWorldAsync(String::from("interface"));
    let guest = world.component_guest_original_interface_async();
    assert_eq!(guest.0, "interface");
    assert!(matches!(guest.next_action(CallEvent::Replied(Ok::<u8, u32>(3))), CallAction::Return(3)));
    assert!(matches!(guest.next_action(CallEvent::<u8>::Replied(Err(5))), CallAction::AwaitReady(5)));
    assert!(matches!(guest.next_action(CallEvent::<u8>::Ready(6)), CallAction::CollectResult(6)));
}
