//! The accept loop of a broker and what it does when something fails.
//!
//! A broker binds its listener once; a failure to bind ends it. After that
//! it accepts connections for ever: a failed accept is followed by a pause
//! and another accept, a successful one by a task of its own for the
//! connection and another accept. The broker decides here; the caller owns
//! the listener and the tasks, and reports what happened.

use vstd::prelude::*;

verus! {

/// How long the loop pauses after a failed accept, in seconds.
pub const ACCEPT_BACKOFF_SECS: u64 = 1;

/// Where a broker stands.
#[derive(Clone, Copy, Debug, PartialEq, Eq, Structural)]
pub enum ListenerState {
    /// Binding the listener.
    Listening,
    /// Waiting for the next connection.
    Accepting,
    /// Handing an accepted connection to a task of its own.
    Spawning,
    /// The listener could not be bound; the broker has ended.
    Stopped,
}

/// What the caller reports.
#[derive(Clone, Copy, Debug, PartialEq, Eq, Structural)]
pub enum ListenerEvent {
    /// The listener is bound.
    Bound,
    /// The listener could not be bound.
    BindFailed,
    /// A connection was accepted.
    Accepted,
    /// An accept failed.
    AcceptFailed,
    /// The task for the accepted connection is running.
    Spawned,
}

/// What the caller is to do.
#[derive(Clone, Copy, Debug, PartialEq, Eq, Structural)]
pub enum ListenerAction {
    /// Accept a connection.
    Accept,
    /// Start a task for the connection that was accepted.
    Spawn,
    /// Pause for this many seconds, then accept a connection.
    Backoff(u64),
    /// End the broker with the bind error.
    Abort,
}

/// The broker's rule: the state and the action that follow an event, or
/// nothing where the event cannot occur in the state.
pub open spec fn listener_rule(state: ListenerState, event: ListenerEvent) -> Option<
    (ListenerState, ListenerAction),
> {
    match (state, event) {
        (ListenerState::Listening, ListenerEvent::Bound) => Some(
            (ListenerState::Accepting, ListenerAction::Accept),
        ),
        (ListenerState::Listening, ListenerEvent::BindFailed) => Some(
            (ListenerState::Stopped, ListenerAction::Abort),
        ),
        (ListenerState::Accepting, ListenerEvent::Accepted) => Some(
            (ListenerState::Spawning, ListenerAction::Spawn),
        ),
        (ListenerState::Accepting, ListenerEvent::AcceptFailed) => Some(
            (ListenerState::Accepting, ListenerAction::Backoff(ACCEPT_BACKOFF_SECS)),
        ),
        (ListenerState::Spawning, ListenerEvent::Spawned) => Some(
            (ListenerState::Accepting, ListenerAction::Accept),
        ),
        _ => None,
    }
}

/// Takes an event and gives the state and the action that follow it, by
/// the broker's rule.
pub fn listener_step(state: ListenerState, event: ListenerEvent) -> (next: Option<
    (ListenerState, ListenerAction),
>)
    ensures
        next == listener_rule(state, event),
{
    match state {
        ListenerState::Listening => match event {
            ListenerEvent::Bound => Some((ListenerState::Accepting, ListenerAction::Accept)),
            ListenerEvent::BindFailed => Some((ListenerState::Stopped, ListenerAction::Abort)),
            _ => None,
        },
        ListenerState::Accepting => match event {
            ListenerEvent::Accepted => Some((ListenerState::Spawning, ListenerAction::Spawn)),
            ListenerEvent::AcceptFailed => Some(
                (ListenerState::Accepting, ListenerAction::Backoff(ACCEPT_BACKOFF_SECS)),
            ),
            _ => None,
        },
        ListenerState::Spawning => match event {
            ListenerEvent::Spawned => Some((ListenerState::Accepting, ListenerAction::Accept)),
            _ => None,
        },
        ListenerState::Stopped => None,
    }
}

/// What the accept loop does, from the state `Accepting`, when its accepts
/// go as `accepts` says (`true` for a connection, `false` for a failure) and
/// every task starts: the actions, in order.
pub open spec fn accept_loop(accepts: Seq<bool>) -> Seq<ListenerAction>
    decreases accepts.len(),
{
    if accepts.len() == 0 {
        Seq::empty()
    } else if accepts.last() {
        accept_loop(accepts.drop_last()).push(ListenerAction::Spawn).push(ListenerAction::Accept)
    } else {
        accept_loop(accepts.drop_last()).push(ListenerAction::Backoff(ACCEPT_BACKOFF_SECS))
    }
}

/// How often `action` occurs among `actions`.
pub open spec fn occurrences(actions: Seq<ListenerAction>, action: ListenerAction) -> nat
    decreases actions.len(),
{
    if actions.len() == 0 {
        0
    } else {
        occurrences(actions.drop_last(), action) + if actions.last() == action {
            1nat
        } else {
            0nat
        }
    }
}

/// How many connections were accepted.
pub open spec fn connections(accepts: Seq<bool>) -> nat
    decreases accepts.len(),
{
    if accepts.len() == 0 {
        0
    } else {
        connections(accepts.drop_last()) + if accepts.last() {
            1nat
        } else {
            0nat
        }
    }
}

/// The state and the actions that a sequence of events leads to, by the
/// broker's rule; an event that cannot occur is passed over.
pub open spec fn listener_run(state: ListenerState, events: Seq<ListenerEvent>) -> (
    ListenerState,
    Seq<ListenerAction>,
)
    decreases events.len(),
{
    if events.len() == 0 {
        (state, Seq::empty())
    } else {
        let before = listener_run(state, events.drop_last());
        match listener_rule(before.0, events.last()) {
            Some(next) => (next.0, before.1.push(next.1)),
            None => before,
        }
    }
}

/// The events that the caller reports when its accepts go as `accepts`
/// says and every task starts.
pub open spec fn accept_events(accepts: Seq<bool>) -> Seq<ListenerEvent>
    decreases accepts.len(),
{
    if accepts.len() == 0 {
        Seq::empty()
    } else if accepts.last() {
        accept_events(accepts.drop_last()).push(ListenerEvent::Accepted).push(
            ListenerEvent::Spawned,
        )
    } else {
        accept_events(accepts.drop_last()).push(ListenerEvent::AcceptFailed)
    }
}

/// The accept loop is what the broker's rule gives: from `Accepting`, the
/// events of any run of accepts lead back to `Accepting` by the actions of
/// `accept_loop`.
pub proof fn lemma_accept_loop_follows_rule(accepts: Seq<bool>)
    ensures
        listener_run(ListenerState::Accepting, accept_events(accepts)) == (
            ListenerState::Accepting,
            accept_loop(accepts),
        ),
    decreases accepts.len(),
{
    let start = ListenerState::Accepting;
    if accepts.len() > 0 {
        lemma_accept_loop_follows_rule(accepts.drop_last());
        let events = accept_events(accepts.drop_last());
        if accepts.last() {
            let mid = events.push(ListenerEvent::Accepted);
            assert(mid.drop_last() =~= events);
            assert(mid.push(ListenerEvent::Spawned).drop_last() =~= mid);
            assert(listener_run(start, mid).0 == ListenerState::Spawning);
        } else {
            assert(events.push(ListenerEvent::AcceptFailed).drop_last() =~= events);
        }
    }
}

proof fn lemma_occurrences_push(
    actions: Seq<ListenerAction>,
    last: ListenerAction,
    action: ListenerAction,
)
    ensures
        occurrences(actions.push(last), action) == occurrences(actions, action) + if last
            == action {
            1nat
        } else {
            0nat
        },
{
    assert(actions.push(last).drop_last() =~= actions);
}

/// Resilience. Whatever fails in between, the accept loop starts exactly
/// one task for each accepted connection and never ends the broker.
pub proof fn lemma_accept_loop_resilient(accepts: Seq<bool>)
    ensures
        occurrences(accept_loop(accepts), ListenerAction::Spawn) == connections(accepts),
        occurrences(accept_loop(accepts), ListenerAction::Abort) == 0,
    decreases accepts.len(),
{
    if accepts.len() > 0 {
        lemma_accept_loop_resilient(accepts.drop_last());
        let before = accept_loop(accepts.drop_last());
        if accepts.last() {
            let mid = before.push(ListenerAction::Spawn);
            lemma_occurrences_push(before, ListenerAction::Spawn, ListenerAction::Spawn);
            lemma_occurrences_push(before, ListenerAction::Spawn, ListenerAction::Abort);
            lemma_occurrences_push(mid, ListenerAction::Accept, ListenerAction::Spawn);
            lemma_occurrences_push(mid, ListenerAction::Accept, ListenerAction::Abort);
        } else {
            let pause = ListenerAction::Backoff(ACCEPT_BACKOFF_SECS);
            lemma_occurrences_push(before, pause, ListenerAction::Spawn);
            lemma_occurrences_push(before, pause, ListenerAction::Abort);
        }
    }
}

/// What a session's stream of incoming sub-streams reports.
#[derive(Clone, Copy, Debug, PartialEq, Eq, Structural)]
pub enum SessionEvent {
    /// The peer opened a sub-stream.
    Incoming,
    /// The session failed.
    Failed,
    /// The session was closed.
    Closed,
}

/// What the task that watches a session does next.
#[derive(Clone, Copy, Debug, PartialEq, Eq, Structural)]
pub enum SessionAction {
    /// Relay the sub-stream in a task of its own, and go on watching.
    Relay,
    /// Go on watching.
    Ignore,
    /// End the task; the session is of no more use.
    Stop,
}

} // verus!
