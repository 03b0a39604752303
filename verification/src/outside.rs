//! The trusted boundary: the few outside calls the library makes —
//! identifier generation, the clock, and the one-shot cancellation channel —
//! each behind a wrapper whose contract Verus believes.
use vstd::prelude::*;

verus! {

/// Relies on `uuid::Uuid::new_v4` and its hyphenated `Display` form: a
/// freshly drawn random version-4 UUID rendered as a string. The value is
/// random, so nothing is promised of it; callers check freshness
/// themselves.
#[verifier::external_body]
pub fn fresh_id() -> (r: String) {
    uuid::Uuid::new_v4().to_string()
}

/// Relies on `std::time::SystemTime::now` and
/// `SystemTime::duration_since(UNIX_EPOCH)`: the wall clock as milliseconds
/// since the Unix epoch (`0` for a clock before the epoch). The value
/// depends on the clock, so nothing is promised of it.
#[verifier::external_body]
pub fn now_millis() -> (r: i64) {
    std::time::SystemTime::now()
        .duration_since(std::time::UNIX_EPOCH)
        .map(|d| d.as_millis() as i64)
        .unwrap_or(0)
}

#[verifier::external_type_specification]
#[verifier::external_body]
#[verifier::reject_recursive_types(T)]
pub struct ExOneshotSender<T>(tokio::sync::oneshot::Sender<T>);

#[verifier::external_type_specification]
#[verifier::external_body]
#[verifier::reject_recursive_types(T)]
pub struct ExOneshotReceiver<T>(tokio::sync::oneshot::Receiver<T>);

#[verifier::external_type_specification]
#[verifier::external_body]
pub struct ExRecvError(tokio::sync::oneshot::error::RecvError);

/// Relies on `tokio::sync::oneshot::channel`: a fresh pair of a one-shot
/// sender and the receiver that its signal reaches. Both halves are opaque
/// here; the executor's driver awaits the receiver.
#[verifier::external_body]
pub fn cancel_channel() -> (r: (
    tokio::sync::oneshot::Sender<()>,
    tokio::sync::oneshot::Receiver<()>,
)) {
    tokio::sync::oneshot::channel()
}

/// Relies on `tokio::sync::oneshot::Sender::send`: consumes the sender and
/// delivers the signal; the result only reports whether the receiver was
/// still listening.
#[verifier::external_body]
pub fn send_cancel(tx: tokio::sync::oneshot::Sender<()>) -> (r: bool) {
    tx.send(()).is_ok()
}

} // verus!
