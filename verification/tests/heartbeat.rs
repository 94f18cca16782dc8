use mpdelta::heartbeat::heartbeat;
use mpdelta::thread_cancel::CancellationGuard;

#[test]
fn test_heartbeat() {
    let (controller, monitor) = heartbeat();
    assert!(monitor.is_live());
    drop(controller);
    assert!(!monitor.is_live());
}

#[test]
fn heartbeat_clones_share_the_signal() {
    let (controller, monitor) = heartbeat();
    let other = monitor.clone();
    assert!(other.is_live());
    drop(controller);
    assert!(!monitor.is_live());
    assert!(!other.is_live());
}

#[test]
fn cancellation_token_sees_cancel() {
    let guard = CancellationGuard::new();
    let token = guard.token();
    let token2 = token.clone();
    assert!(!token.is_canceled());
    guard.cancel();
    assert!(token.is_canceled());
    assert!(token2.is_canceled());
}

#[test]
fn cancellation_by_drop() {
    let token = {
        let guard = CancellationGuard::new();
        guard.token()
    };
    assert!(token.is_canceled());
}
