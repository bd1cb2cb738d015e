//! The remote broker.
//!
//! ```plain
//!        KCP (UDP)                 TCP Loopback
//! CLIENT ---------> [SSKCP-Server] <----------> [SS-Server]
//! ```

use crate::relay::{SessionAction, SessionEvent};
use vstd::prelude::*;

verus! {

/// What the remote broker does with an event of an accepted session: each
/// sub-stream that the peer opens is relayed to the local service, and a
/// failure or a close ends the session's task and no other.
pub fn on_session_event(event: SessionEvent) -> (action: SessionAction)
    ensures
        action == (match event {
            SessionEvent::Incoming => SessionAction::Relay,
            SessionEvent::Failed => SessionAction::Stop,
            SessionEvent::Closed => SessionAction::Stop,
        }),
{
    match event {
        SessionEvent::Incoming => SessionAction::Relay,
        SessionEvent::Failed => SessionAction::Stop,
        SessionEvent::Closed => SessionAction::Stop,
    }
}

} // verus!
