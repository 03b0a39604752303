//! The active-request registry and the cancellation signal path.
use reqstudio::outside::cancel_channel;
use reqstudio::registry::ActiveRequests;

#[test]
fn cancelling_an_unknown_identifier_is_false_not_an_error() {
    let mut reg = ActiveRequests::new();
    assert!(!reg.cancel("nope"));
    assert!(!reg.cancel("nope"));
    assert_eq!(reg.len(), 0);
}

#[test]
fn cancelling_a_registered_identifier_returns_true_once() {
    let mut reg = ActiveRequests::new();
    let (tx, _rx) = cancel_channel();
    reg.register("req-1".to_string(), tx);
    assert_eq!(reg.len(), 1);
    assert!(reg.cancel("req-1"));
    assert!(!reg.cancel("req-1"));
    assert_eq!(reg.len(), 0);
}

#[test]
fn cancel_delivers_the_oneshot_signal() {
    let mut reg = ActiveRequests::new();
    let (tx, rx) = cancel_channel();
    reg.register("req-2".to_string(), tx);
    assert!(reg.cancel("req-2"));
    let rt = tokio::runtime::Builder::new_current_thread().build().unwrap();
    // The racing receiver resolves because the signal was sent.
    rt.block_on(async { rx.await }).expect("the cancel signal must arrive");
}

#[test]
fn remove_discards_without_signalling() {
    let mut reg = ActiveRequests::new();
    let (tx, rx) = cancel_channel();
    reg.register("req-3".to_string(), tx);
    reg.remove("req-3");
    assert!(!reg.cancel("req-3"));
    let rt = tokio::runtime::Builder::new_current_thread().build().unwrap();
    // The sender was dropped unsignalled, so the receiver sees an error.
    assert!(rt.block_on(async { rx.await }).is_err());
}

#[test]
fn registering_twice_replaces_the_handle() {
    let mut reg = ActiveRequests::new();
    let (tx1, rx1) = cancel_channel();
    let (tx2, rx2) = cancel_channel();
    reg.register("req-4".to_string(), tx1);
    reg.register("req-4".to_string(), tx2);
    assert_eq!(reg.len(), 1);
    assert!(reg.cancel("req-4"));
    let rt = tokio::runtime::Builder::new_current_thread().build().unwrap();
    // The first handle was replaced and dropped; the second got the signal.
    assert!(rt.block_on(async { rx1.await }).is_err());
    assert!(rt.block_on(async { rx2.await }).is_ok());
}

#[test]
fn other_entries_survive_a_cancel() {
    let mut reg = ActiveRequests::new();
    let (tx_a, _rx_a) = cancel_channel();
    let (tx_b, _rx_b) = cancel_channel();
    reg.register("a".to_string(), tx_a);
    reg.register("b".to_string(), tx_b);
    assert!(reg.cancel("a"));
    assert_eq!(reg.len(), 1);
    assert!(reg.cancel("b"));
    assert_eq!(reg.len(), 0);
}
