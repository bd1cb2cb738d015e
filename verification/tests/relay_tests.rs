use sskcp::local;
use sskcp::relay::{
    listener_step, ListenerAction, ListenerEvent, ListenerState, SessionAction, SessionEvent,
    ACCEPT_BACKOFF_SECS,
};
use sskcp::server;

#[test]
fn bind_failure_is_fatal() {
    assert_eq!(
        listener_step(ListenerState::Listening, ListenerEvent::BindFailed),
        Some((ListenerState::Stopped, ListenerAction::Abort))
    );
    for event in [
        ListenerEvent::Bound,
        ListenerEvent::BindFailed,
        ListenerEvent::Accepted,
        ListenerEvent::AcceptFailed,
        ListenerEvent::Spawned,
    ] {
        assert_eq!(listener_step(ListenerState::Stopped, event), None);
    }
}

#[test]
fn accept_error_then_accept_spawns_one_task() {
    let mut state = ListenerState::Listening;
    let mut spawned = 0;
    let mut actions = vec![];
    for event in [
        ListenerEvent::Bound,
        ListenerEvent::AcceptFailed,
        ListenerEvent::Accepted,
        ListenerEvent::Spawned,
    ] {
        let (next, action) = listener_step(state, event).unwrap();
        if action == ListenerAction::Spawn {
            spawned += 1;
        }
        actions.push(action);
        state = next;
    }
    assert_eq!(spawned, 1);
    assert_eq!(state, ListenerState::Accepting);
    assert_eq!(
        actions,
        vec![
            ListenerAction::Accept,
            ListenerAction::Backoff(1),
            ListenerAction::Spawn,
            ListenerAction::Accept
        ]
    );
    assert_eq!(ACCEPT_BACKOFF_SECS, 1);
}

#[test]
fn accept_loop_never_stops() {
    let mut state = ListenerState::Accepting;
    let mut spawned = 0;
    for i in 0..100 {
        let event = if i % 3 == 0 { ListenerEvent::Accepted } else { ListenerEvent::AcceptFailed };
        let (next, action) = listener_step(state, event).unwrap();
        assert_ne!(action, ListenerAction::Abort);
        state = next;
        if action == ListenerAction::Spawn {
            spawned += 1;
            assert_eq!(state, ListenerState::Spawning);
            // nothing else can happen until the task runs
            assert_eq!(listener_step(state, ListenerEvent::Accepted), None);
            assert_eq!(listener_step(state, ListenerEvent::AcceptFailed), None);
            state = listener_step(state, ListenerEvent::Spawned).unwrap().0;
        }
        assert_eq!(state, ListenerState::Accepting);
    }
    assert_eq!(spawned, 34);
}

#[test]
fn events_out_of_place_are_refused() {
    assert_eq!(listener_step(ListenerState::Listening, ListenerEvent::Accepted), None);
    assert_eq!(listener_step(ListenerState::Listening, ListenerEvent::AcceptFailed), None);
    assert_eq!(listener_step(ListenerState::Listening, ListenerEvent::Spawned), None);
    assert_eq!(listener_step(ListenerState::Accepting, ListenerEvent::Bound), None);
    assert_eq!(listener_step(ListenerState::Accepting, ListenerEvent::BindFailed), None);
    assert_eq!(listener_step(ListenerState::Accepting, ListenerEvent::Spawned), None);
    assert_eq!(listener_step(ListenerState::Spawning, ListenerEvent::Bound), None);
}

#[test]
fn session_events() {
    assert_eq!(server::on_session_event(SessionEvent::Incoming), SessionAction::Relay);
    assert_eq!(server::on_session_event(SessionEvent::Failed), SessionAction::Stop);
    assert_eq!(server::on_session_event(SessionEvent::Closed), SessionAction::Stop);
    assert_eq!(local::on_session_event(SessionEvent::Incoming), SessionAction::Ignore);
    assert_eq!(local::on_session_event(SessionEvent::Failed), SessionAction::Stop);
    assert_eq!(local::on_session_event(SessionEvent::Closed), SessionAction::Stop);
}
