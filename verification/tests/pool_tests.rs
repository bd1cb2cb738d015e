use sskcp::pool::{Acquisition, ConnectionPool, PoolAction, PoolEvent, PooledSession};

/// A stand-in for a session's control handle: it opens `left` sub-streams
/// and is exhausted after that, or fails if it is `broken`.
struct Handle {
    name: &'static str,
    left: usize,
    broken: bool,
}

enum Opened {
    Stream,
    Exhausted,
    Broken,
}

fn open(session: &mut PooledSession<Handle>) -> Opened {
    let h = session.control();
    if h.broken {
        Opened::Broken
    } else if h.left == 0 {
        Opened::Exhausted
    } else {
        h.left -= 1;
        Opened::Stream
    }
}

/// Serves one client as a broker would; returns the name of the session
/// that gave the sub-stream, and how many sessions were made on the way.
fn acquire(
    pool: &mut ConnectionPool<Handle>,
    fresh: &mut Vec<Handle>,
) -> Result<(&'static str, u64, usize), usize> {
    let mut attempt = Acquisition::new();
    let mut made = 0;
    let mut action = pool.acquire_stream(&mut attempt, PoolEvent::Acquire);
    loop {
        action = match action {
            PoolAction::Open(mut session) => match open(&mut session) {
                Opened::Stream => {
                    let name = session.control().name;
                    let id = session.id();
                    match pool.acquire_stream(&mut attempt, PoolEvent::Opened(session)) {
                        PoolAction::Yield => return Ok((name, id, made)),
                        _ => panic!("an opened sub-stream is yielded"),
                    }
                }
                Opened::Exhausted => {
                    pool.acquire_stream(&mut attempt, PoolEvent::Exhausted(session))
                }
                Opened::Broken => pool.acquire_stream(&mut attempt, PoolEvent::Broken(session)),
            },
            PoolAction::Connect => {
                if fresh.is_empty() {
                    pool.acquire_stream(&mut attempt, PoolEvent::ConnectFailed)
                } else {
                    made += 1;
                    pool.acquire_stream(&mut attempt, PoolEvent::Connected(fresh.remove(0)))
                }
            }
            PoolAction::Yield => panic!("nothing was opened"),
            PoolAction::Fail => return Err(made),
        };
    }
}

fn handle(name: &'static str, left: usize) -> Handle {
    Handle { name, left, broken: false }
}

#[test]
fn empty_pool_makes_a_session() {
    let mut pool: ConnectionPool<Handle> = ConnectionPool::new();
    assert_eq!(pool.len(), 0);
    let mut fresh = vec![handle("a", 10)];
    assert_eq!(acquire(&mut pool, &mut fresh), Ok(("a", 0, 1)));
    assert_eq!(pool.len(), 1);
    assert_eq!(acquire(&mut pool, &mut fresh), Ok(("a", 0, 0)));
    assert_eq!(pool.len(), 1);
}

#[test]
fn pool_reuses_a_session_until_it_is_exhausted() {
    let n = 5;
    let mut pool: ConnectionPool<Handle> = ConnectionPool::new();
    // seed the pool with one session that has n sub-streams left
    let mut fresh = vec![handle("seed", n + 1), handle("new", 100)];
    assert_eq!(acquire(&mut pool, &mut fresh), Ok(("seed", 0, 1)));
    for _ in 0..n {
        assert_eq!(acquire(&mut pool, &mut fresh), Ok(("seed", 0, 0)));
        assert_eq!(pool.len(), 1);
    }
    // the next request finds it exhausted and makes exactly one session
    assert_eq!(acquire(&mut pool, &mut fresh), Ok(("new", 1, 1)));
    assert_eq!(pool.len(), 2);
    assert!(fresh.is_empty());
    // the exhausted session is still pooled and is tried first
    assert_eq!(acquire(&mut pool, &mut fresh), Ok(("new", 1, 0)));
    assert_eq!(pool.len(), 2);
}

#[test]
fn broken_session_is_evicted() {
    let mut pool: ConnectionPool<Handle> = ConnectionPool::new();
    let mut fresh = vec![handle("a", 10)];
    assert_eq!(acquire(&mut pool, &mut fresh), Ok(("a", 0, 1)));

    // break the pooled session behind the pool's back
    let mut attempt = Acquisition::new();
    match pool.acquire_stream(&mut attempt, PoolEvent::Acquire) {
        PoolAction::Open(mut s) => {
            s.control().broken = true;
            match pool.acquire_stream(&mut attempt, PoolEvent::Exhausted(s)) {
                PoolAction::Connect => {}
                _ => panic!("no other session is pooled"),
            }
        }
        _ => panic!("one session is pooled"),
    }
    assert_eq!(pool.len(), 1);

    let mut fresh = vec![handle("b", 10)];
    assert_eq!(acquire(&mut pool, &mut fresh), Ok(("b", 1, 1)));
    assert_eq!(pool.len(), 1);
    for _ in 0..3 {
        assert_eq!(acquire(&mut pool, &mut fresh), Ok(("b", 1, 0)));
        assert_eq!(pool.len(), 1);
    }
}

#[test]
fn connect_failure_ends_the_request() {
    let mut pool: ConnectionPool<Handle> = ConnectionPool::new();
    let mut none: Vec<Handle> = vec![];
    assert_eq!(acquire(&mut pool, &mut none), Err(0));
    assert_eq!(pool.len(), 0);

    // with an exhausted session pooled, the failure leaves it pooled
    let mut fresh = vec![handle("a", 1)];
    assert_eq!(acquire(&mut pool, &mut fresh), Ok(("a", 0, 1)));
    assert_eq!(acquire(&mut pool, &mut none), Err(0));
    assert_eq!(pool.len(), 1);
}

#[test]
fn each_pooled_session_is_tried_once_front_first() {
    let mut pool: ConnectionPool<Handle> = ConnectionPool::new();
    // three sessions, each good for the one sub-stream that pools it
    for name in ["a", "b", "c"] {
        let mut attempt = Acquisition::new();
        match pool.acquire_stream(&mut attempt, PoolEvent::Connected(handle(name, 0))) {
            PoolAction::Open(s) => match pool.acquire_stream(&mut attempt, PoolEvent::Opened(s)) {
                PoolAction::Yield => {}
                _ => panic!("an opened sub-stream is yielded"),
            },
            _ => panic!("a new session is lent out at once"),
        }
    }
    assert_eq!(pool.len(), 3);

    let mut attempt = Acquisition::new();
    let mut order = vec![];
    let mut action = pool.acquire_stream(&mut attempt, PoolEvent::Acquire);
    loop {
        match action {
            PoolAction::Open(mut s) => {
                order.push((s.control().name, s.id()));
                action = pool.acquire_stream(&mut attempt, PoolEvent::Exhausted(s));
            }
            PoolAction::Connect => break,
            _ => panic!("unexpected action"),
        }
    }
    assert_eq!(order, vec![("a", 0), ("b", 1), ("c", 2)]);
    assert_eq!(attempt.untried, 0);
    assert_eq!(pool.len(), 3);

    // a new session that is exhausted at once is pooled, and another is made
    match pool.acquire_stream(&mut attempt, PoolEvent::Connected(handle("d", 0))) {
        PoolAction::Open(s) => {
            assert_eq!(s.id(), 3);
            match pool.acquire_stream(&mut attempt, PoolEvent::Exhausted(s)) {
                PoolAction::Connect => {}
                _ => panic!("every pooled session was tried"),
            }
        }
        _ => panic!("a new session is lent out at once"),
    }
    assert_eq!(pool.len(), 4);
    match pool.acquire_stream(&mut attempt, PoolEvent::ConnectFailed) {
        PoolAction::Fail => {}
        _ => panic!("a failed connect ends the request"),
    }
}

#[test]
fn returned_sessions_go_to_the_back() {
    let mut pool: ConnectionPool<Handle> = ConnectionPool::new();
    let mut fresh = vec![handle("a", 100), handle("b", 100)];
    assert_eq!(acquire(&mut pool, &mut fresh), Ok(("a", 0, 1)));
    // make a second session while the first is lent out
    let mut attempt = Acquisition::new();
    let lent = match pool.acquire_stream(&mut attempt, PoolEvent::Acquire) {
        PoolAction::Open(s) => s,
        _ => panic!("one session is pooled"),
    };
    assert_eq!(acquire(&mut pool, &mut fresh), Ok(("b", 1, 1)));
    match pool.acquire_stream(&mut attempt, PoolEvent::Opened(lent)) {
        PoolAction::Yield => {}
        _ => panic!("an opened sub-stream is yielded"),
    }
    // the pool is now [b, a]: requests alternate
    let mut none: Vec<Handle> = vec![];
    assert_eq!(acquire(&mut pool, &mut none), Ok(("b", 1, 0)));
    assert_eq!(acquire(&mut pool, &mut none), Ok(("a", 0, 0)));
    assert_eq!(acquire(&mut pool, &mut none), Ok(("b", 1, 0)));
}
