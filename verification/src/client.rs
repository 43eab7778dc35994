//! Client-side protocol decisions: what a reply from the coordinator means.
//! The transport that carries requests and replies lives outside this crate;
//! it hands these functions plain values.

use vstd::prelude::*;

verus! {

/// What the client-side receive loop should do next.
#[derive(Clone, Copy, Debug, PartialEq, Eq, Structural)]
pub enum State {
    /// Keep waiting for further notifications.
    Continue,
    /// The session is over; stop the loop.
    Shutdown,
}

/// Client-side error for a reply that carries no data.
#[derive(Clone, Copy, Debug, PartialEq, Eq, Structural)]
pub enum ClientError {
    /// An empty reply: no coordinator is listening on the subject the
    /// request was sent to.
    NoListenerAvailable,
}

/// Classifies one fetched reply: no message at all means the subscription is
/// gone (the caller should stop), an empty payload means no listener is
/// available, and a nonempty payload is handed back for decoding.
pub fn classify_reply(payload: Option<Vec<u8>>) -> (r: Result<Option<Vec<u8>>, ClientError>)
    ensures
        (match payload {
            None => r == Ok::<Option<Vec<u8>>, ClientError>(None),
            Some(p) => if p@.len() == 0 {
                r == Err::<Option<Vec<u8>>, ClientError>(ClientError::NoListenerAvailable)
            } else {
                r matches Ok(q) && q matches Some(b) && b@ == p@
            },
        }),
{
    match payload {
        None => Ok(None),
        Some(p) => {
            if p.len() == 0 {
                Err(ClientError::NoListenerAvailable)
            } else {
                Ok(Some(p))
            }
        },
    }
}

/// What the receive loop does with one decoded notification: completion ends
/// the session's wait; a proceed notification keeps it running.
pub fn next_state(response: &crate::session::Response) -> (r: State)
    ensures
        r == (match response {
            crate::session::Response::Complete => State::Shutdown,
            crate::session::Response::Proceed { .. } => State::Continue,
        }),
{
    match response {
        crate::session::Response::Complete => State::Shutdown,
        crate::session::Response::Proceed { .. } => State::Continue,
    }
}

} // verus!
