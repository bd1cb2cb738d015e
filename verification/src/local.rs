//! The local broker.
//!
//! ```plain
//!              TCP Loopback                KCP (UDP)
//! [SS-Client] <------------> [SSKCP-Local] --------> REMOTE
//! ```

use crate::relay::{SessionAction, SessionEvent};
use vstd::prelude::*;

verus! {

/// What the local broker does with an event of a session that it made: the
/// peer's sub-streams are of no interest, and a failure or a close ends the
/// session's task. The pool finds out on the session's next use.
pub fn on_session_event(event: SessionEvent) -> (action: SessionAction)
    ensures
        action == (match event {
            SessionEvent::Incoming => SessionAction::Ignore,
            SessionEvent::Failed => SessionAction::Stop,
            SessionEvent::Closed => SessionAction::Stop,
        }),
{
    match event {
        SessionEvent::Incoming => SessionAction::Ignore,
        SessionEvent::Failed => SessionAction::Stop,
        SessionEvent::Closed => SessionAction::Stop,
    }
}

} // verus!
