//! Deciding how far an outgoing TCP connection has come.

use vstd::prelude::*;

verus! {

/// Where a connection attempt stands after asking the socket for its peer.
#[derive(Clone, Copy)]
pub enum ConnectProgress {
    /// The peer is known: the connection is up.
    Connected,
    /// The handshake is still under way: wait for the socket to be writable.
    InProgress,
    /// The attempt failed with the error that the query gave.
    Failed,
}

/// `libc::EINPROGRESS`, the platform's code for an operation that is under
/// way. Its value differs between platforms, so it is not stated.
#[verifier::external_body]
fn in_progress_errno() -> i32 {
    libc::EINPROGRESS
}

/// The progress of a connection, given what the peer query answered
/// (`peer_known`), whether its error was of kind "not connected", its raw OS
/// code if any, and the platform's "in progress" code.
pub fn classify_peer_query(
    peer_known: bool,
    not_connected: bool,
    raw_os_error: Option<i32>,
    in_progress_code: i32,
) -> (progress: ConnectProgress)
    ensures
        peer_known ==> progress is Connected,
        !peer_known && (not_connected || raw_os_error == Some(in_progress_code))
            ==> progress is InProgress,
        !peer_known && !not_connected && raw_os_error != Some(in_progress_code)
            ==> progress is Failed,
{
    if peer_known {
        ConnectProgress::Connected
    } else if not_connected {
        ConnectProgress::InProgress
    } else {
        match raw_os_error {
            Some(code) => if code == in_progress_code {
                ConnectProgress::InProgress
            } else {
                ConnectProgress::Failed
            },
            None => ConnectProgress::Failed,
        }
    }
}

/// The progress of a connection from what the peer query answered, on this
/// platform.
pub fn connect_progress(peer_known: bool, not_connected: bool, raw_os_error: Option<i32>) -> (progress:
    ConnectProgress)
    ensures
        peer_known ==> progress is Connected,
        !peer_known && not_connected ==> progress is InProgress,
        !peer_known && !not_connected && raw_os_error is None ==> progress is Failed,
        !peer_known && !not_connected && raw_os_error is Some ==> !(progress is Connected),
{
    classify_peer_query(peer_known, not_connected, raw_os_error, in_progress_errno())
}

} // verus!
