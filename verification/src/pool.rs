//! The pool of multiplexed sessions on the local side of the tunnel.
//!
//! Setting up a session over a lossy transport is expensive, so a session is
//! shared: each inbound connection gets a sub-stream of a pooled session, and
//! a new session is made only when no pooled one can give a sub-stream.
//!
//! The pool decides and the caller acts. The caller reports what happened as
//! a [`PoolEvent`] and is told what to do next as a [`PoolAction`]: open a
//! sub-stream on a session that the pool lends out, make a new session, hand
//! the opened sub-stream to the client, or give up.

use std::collections::VecDeque;
use vstd::prelude::*;

verus! {

/// A live session: the control handle of its multiplexer, under the number
/// that the pool gave it.
pub struct PooledSession<C> {
    id: u64,
    control: C,
}

impl<C> PooledSession<C> {
    /// The number that the pool gave this session.
    pub closed spec fn ident(&self) -> u64 {
        self.id
    }

    /// The control handle of this session.
    pub closed spec fn handle(&self) -> C {
        self.control
    }

    /// The session with number `id` over `control`.
    pub closed spec fn fresh(id: u64, control: C) -> PooledSession<C> {
        PooledSession { id, control }
    }

    /// A fresh session has the number and the handle it was made with.
    pub proof fn lemma_fresh(id: u64, control: C)
        ensures
            Self::fresh(id, control).ident() == id,
            Self::fresh(id, control).handle() == control,
    {
    }

    /// The number that the pool gave this session.
    pub fn id(&self) -> (n: u64)
        ensures
            n == self.ident(),
    {
        self.id
    }

    /// The control handle, to open a sub-stream with. The session keeps
    /// its number whatever is done to the handle.
    pub fn control(&mut self) -> (c: &mut C)
        ensures
            *c == old(self).handle(),
            final(self).handle() == *final(c),
            final(self).ident() == old(self).ident(),
    {
        &mut self.control
    }
}

/// What the caller reports to the pool.
pub enum PoolEvent<C> {
    /// A client needs a sub-stream.
    Acquire,
    /// The lent session opened a sub-stream.
    Opened(PooledSession<C>),
    /// The lent session has as many sub-streams as it may have.
    Exhausted(PooledSession<C>),
    /// The lent session failed in any other way.
    Broken(PooledSession<C>),
    /// A new session was established; this is its control handle.
    Connected(C),
    /// No new session could be established.
    ConnectFailed,
}

/// What the pool tells the caller to do.
pub enum PoolAction<C> {
    /// Open a sub-stream on this session and report how it went.
    Open(PooledSession<C>),
    /// Establish a new session and report how it went.
    Connect,
    /// Hand the sub-stream that was just opened to the client.
    Yield,
    /// Give up on this client: no session could be established.
    Fail,
}

/// The progress of one client's request: how many pooled sessions it has
/// not tried yet.
pub struct Acquisition {
    pub untried: usize,
}

/// The pool as contracts see it.
#[verifier::ext_equal]
pub struct PoolModel<C> {
    /// The pooled sessions, front first.
    pub sessions: Seq<PooledSession<C>>,
    /// How many sessions the pool has numbered so far.
    pub minted: nat,
    /// The numbers of the sessions that are lent out.
    pub lent: Set<u64>,
}

/// The outcome of one step: the pool, the request's progress, and the action.
#[verifier::ext_equal]
pub struct PoolStep<C> {
    pub model: PoolModel<C>,
    pub untried: nat,
    pub action: PoolAction<C>,
}

impl<C> PoolModel<C> {
    /// Whether a session with this number is pooled.
    pub open spec fn pooled(self, id: u64) -> bool {
        exists|i: int| 0 <= i < self.sessions.len() && #[trigger] self.sessions[i].ident() == id
    }

    /// Whether a session with this number is pooled or lent out.
    pub open spec fn known(self, id: u64) -> bool {
        self.pooled(id) || self.lent.contains(id)
    }

    /// Whether a session with this number existed and is gone for good.
    pub open spec fn evicted(self, id: u64) -> bool {
        id < self.minted && !self.known(id)
    }

    /// No number occurs twice, among the pooled and the lent sessions
    /// together, and every number in use was given out by the pool.
    pub open spec fn wf(self) -> bool {
        &&& self.minted <= u64::MAX
        &&& forall|i: int, j: int|
            0 <= i < j < self.sessions.len() ==> #[trigger] self.sessions[i].ident()
                != #[trigger] self.sessions[j].ident()
        &&& forall|i: int|
            0 <= i < self.sessions.len() ==> (#[trigger] self.sessions[i].ident()) < self.minted
                && !self.lent.contains(self.sessions[i].ident())
        &&& forall|id: u64| #[trigger] self.lent.contains(id) ==> id < self.minted
    }

    /// The pool after a lent session came back to its end.
    pub open spec fn returned(self, s: PooledSession<C>) -> PoolModel<C> {
        PoolModel {
            sessions: self.sessions.push(s),
            minted: self.minted,
            lent: self.lent.remove(s.ident()),
        }
    }

    /// The pool after a lent session was discarded.
    pub open spec fn discarded(self, s: PooledSession<C>) -> PoolModel<C> {
        PoolModel { lent: self.lent.remove(s.ident()), ..self }
    }

    /// Picks what to try next: the session at the front while the request
    /// has pooled sessions left to try, a new session after that.
    pub open spec fn take_next(self, untried: nat) -> PoolStep<C> {
        if untried > 0 && self.sessions.len() > 0 {
            let s = self.sessions[0];
            PoolStep {
                model: PoolModel {
                    sessions: self.sessions.skip(1),
                    minted: self.minted,
                    lent: self.lent.insert(s.ident()),
                },
                untried: (untried - 1) as nat,
                action: PoolAction::Open(s),
            }
        } else {
            PoolStep { model: self, untried: 0, action: PoolAction::Connect }
        }
    }

    /// The pool's rule: what an event does to the pool and to the request,
    /// and what the caller is to do next.
    ///
    /// A request tries each pooled session once, front first. A session
    /// that opened a sub-stream or is exhausted goes back to the end of the
    /// pool; a broken one is discarded. When none is left to try, a new
    /// session is made and lent out at once. A failure to make one ends the
    /// request.
    pub open spec fn step(self, untried: nat, event: PoolEvent<C>) -> PoolStep<C> {
        match event {
            PoolEvent::Acquire => self.take_next(self.sessions.len()),
            PoolEvent::Opened(s) => PoolStep {
                model: self.returned(s),
                untried,
                action: PoolAction::Yield,
            },
            PoolEvent::Exhausted(s) => self.returned(s).take_next(untried),
            PoolEvent::Broken(s) => self.discarded(s).take_next(untried),
            PoolEvent::Connected(control) => if self.minted < u64::MAX {
                PoolStep {
                    model: PoolModel {
                        sessions: self.sessions,
                        minted: self.minted + 1,
                        lent: self.lent.insert(self.minted as u64),
                    },
                    untried,
                    action: PoolAction::Open(PooledSession::fresh(self.minted as u64, control)),
                }
            } else {
                PoolStep { model: self, untried, action: PoolAction::Fail }
            },
            PoolEvent::ConnectFailed => PoolStep { model: self, untried, action: PoolAction::Fail },
        }
    }

    /// Whether the caller may report this event: a session that comes back
    /// is one that the pool lent out.
    pub open spec fn admits(self, event: PoolEvent<C>) -> bool {
        match event {
            PoolEvent::Opened(s) => self.lent.contains(s.ident()),
            PoolEvent::Exhausted(s) => self.lent.contains(s.ident()),
            PoolEvent::Broken(s) => self.lent.contains(s.ident()),
            _ => true,
        }
    }
}

/// The pool after a request that was served by the session at the front:
/// the session is lent out, opens a sub-stream, and comes back.
pub open spec fn served_by_front<C>(m: PoolModel<C>) -> PoolModel<C> {
    let lend = m.step(0, PoolEvent::Acquire);
    match lend.action {
        PoolAction::Open(s) => lend.model.step(lend.untried, PoolEvent::Opened(s)).model,
        _ => m,
    }
}

/// The pool after `n` requests, each served by the session at the front.
pub open spec fn served_times<C>(m: PoolModel<C>, n: nat) -> PoolModel<C>
    decreases n,
{
    if n == 0 {
        m
    } else {
        served_by_front(served_times(m, (n - 1) as nat))
    }
}

/// The pool's rule keeps the pool's invariant.
pub proof fn lemma_step_keeps_wf<C>(m: PoolModel<C>, untried: nat, event: PoolEvent<C>)
    requires
        m.wf(),
        m.admits(event),
    ensures
        m.step(untried, event).model.wf(),
{
    match event {
        PoolEvent::Acquire => {
            lemma_take_next_keeps_wf(m, m.sessions.len());
        },
        PoolEvent::Opened(s) => {
            lemma_returned_keeps_wf(m, s);
        },
        PoolEvent::Exhausted(s) => {
            lemma_returned_keeps_wf(m, s);
            lemma_take_next_keeps_wf(m.returned(s), untried);
        },
        PoolEvent::Broken(s) => {
            lemma_discarded_keeps_wf(m, s);
            lemma_take_next_keeps_wf(m.discarded(s), untried);
        },
        PoolEvent::Connected(control) => {},
        PoolEvent::ConnectFailed => {},
    }
}

proof fn lemma_returned_keeps_wf<C>(m: PoolModel<C>, s: PooledSession<C>)
    requires
        m.wf(),
        m.lent.contains(s.ident()),
    ensures
        m.returned(s).wf(),
{
    let r = m.returned(s);
    assert forall|i: int, j: int| 0 <= i < j < r.sessions.len() implies (
    #[trigger] r.sessions[i].ident()) != (#[trigger] r.sessions[j].ident()) by {
        if j == m.sessions.len() {
            assert(m.sessions[i].ident() != s.ident());
        } else {
            assert(m.sessions[i].ident() != m.sessions[j].ident());
        }
    }
}

proof fn lemma_discarded_keeps_wf<C>(m: PoolModel<C>, s: PooledSession<C>)
    requires
        m.wf(),
    ensures
        m.discarded(s).wf(),
{
    let d = m.discarded(s);
    assert forall|i: int| 0 <= i < d.sessions.len() implies (#[trigger] d.sessions[i].ident())
        < d.minted && !d.lent.contains(d.sessions[i].ident()) by {
        assert(m.sessions[i].ident() < m.minted);
    }
    assert forall|id: u64| #[trigger] d.lent.contains(id) implies id < d.minted by {
        assert(m.lent.contains(id));
    }
    assert forall|i: int, j: int| 0 <= i < j < d.sessions.len() implies (
    #[trigger] d.sessions[i].ident()) != (#[trigger] d.sessions[j].ident()) by {
        assert(m.sessions[i].ident() != m.sessions[j].ident());
    }
}

proof fn lemma_take_next_keeps_wf<C>(m: PoolModel<C>, untried: nat)
    requires
        m.wf(),
    ensures
        m.take_next(untried).model.wf(),
{
    let n = m.take_next(untried).model;
    if untried > 0 && m.sessions.len() > 0 {
        assert forall|i: int| 0 <= i < n.sessions.len() implies (#[trigger] n.sessions[i].ident())
            < n.minted && !n.lent.contains(n.sessions[i].ident()) by {
            assert(n.sessions[i] == m.sessions[i + 1]);
            assert(m.sessions[0].ident() != m.sessions[i + 1].ident());
        }
        assert forall|i: int, j: int| 0 <= i < j < n.sessions.len() implies (
        #[trigger] n.sessions[i].ident()) != (#[trigger] n.sessions[j].ident()) by {
            assert(m.sessions[i + 1].ident() != m.sessions[j + 1].ident());
        }
    }
}

/// Reuse. While the only pooled session opens sub-streams, every request
/// is served by it and leaves the pool as it was, however many requests
/// there are. The request on which it is exhausted goes on to make exactly
/// one new session, which serves it; after that the pool holds the old
/// session and the new one.
pub proof fn lemma_pool_reuse<C>(m: PoolModel<C>, s: PooledSession<C>, n: nat, control: C)
    requires
        m.wf(),
        m.sessions == seq![s],
        m.minted < u64::MAX,
    ensures
        m.step(0, PoolEvent::Acquire).action == PoolAction::Open(s),
        m.step(0, PoolEvent::Acquire).model.step(0, PoolEvent::Opened(s)).action
            == PoolAction::<C>::Yield,
        served_times(m, n) == m,
        ({
            let lend = m.step(0, PoolEvent::Acquire);
            let full = lend.model.step(lend.untried, PoolEvent::Exhausted(s));
            let made = full.model.step(full.untried, PoolEvent::Connected(control));
            let f = PooledSession::fresh(m.minted as u64, control);
            let done = made.model.step(made.untried, PoolEvent::Opened(f));
            &&& full.action == PoolAction::<C>::Connect
            &&& full.model == m
            &&& made.action == PoolAction::Open(f)
            &&& made.model.sessions == m.sessions
            &&& done.action == PoolAction::<C>::Yield
            &&& done.model.sessions == seq![s, f]
            &&& done.model.minted == m.minted + 1
            &&& done.model.lent == m.lent
        }),
    decreases n,
{
    let lend = m.step(0, PoolEvent::Acquire);
    assert(m.sessions[0] == s);
    assert(!m.lent.contains(s.ident()));
    assert(lend.model.sessions =~= Seq::<PooledSession<C>>::empty());
    let back = lend.model.step(lend.untried, PoolEvent::Opened(s));
    assert(back.model.sessions =~= m.sessions);
    assert(back.model.lent =~= m.lent);
    assert(back.model =~= m);
    assert(served_by_front(m) == m);
    if n > 0 {
        lemma_pool_reuse(m, s, (n - 1) as nat, control);
    }
    let full = lend.model.step(lend.untried, PoolEvent::Exhausted(s));
    assert(lend.model.returned(s) =~= m);
    assert(full.model =~= m);
    let made = full.model.step(full.untried, PoolEvent::Connected(control));
    let f = PooledSession::fresh(m.minted as u64, control);
    let done = made.model.step(made.untried, PoolEvent::Opened(f));
    assert(done.model.sessions =~= seq![s, f]);
    assert(done.model.lent =~= m.lent);
}

/// Eviction. A session that is reported broken is in the pool no more and
/// is not lent out: it is gone.
pub proof fn lemma_pool_eviction<C>(m: PoolModel<C>, untried: nat, s: PooledSession<C>)
    requires
        m.wf(),
        m.lent.contains(s.ident()),
    ensures
        m.step(untried, PoolEvent::Broken(s)).model.evicted(s.ident()),
        m.step(untried, PoolEvent::Broken(s)).action matches PoolAction::Open(t) ==> t.ident()
            != s.ident(),
{
    let id = s.ident();
    let d = m.discarded(s);
    assert(!d.pooled(id));
    lemma_take_next_forgets(d, untried, id);
}

/// A session that is gone stays gone: no step puts its number back into
/// the pool or lends it out again.
pub proof fn lemma_evicted_stays<C>(m: PoolModel<C>, untried: nat, event: PoolEvent<C>, id: u64)
    requires
        m.wf(),
        m.admits(event),
        m.evicted(id),
    ensures
        m.step(untried, event).model.evicted(id),
        m.step(untried, event).action matches PoolAction::Open(t) ==> t.ident() != id,
{
    match event {
        PoolEvent::Acquire => {
            lemma_take_next_forgets(m, m.sessions.len(), id);
        },
        PoolEvent::Opened(t) => {
            lemma_returned_forgets(m, t, id);
        },
        PoolEvent::Exhausted(t) => {
            lemma_returned_forgets(m, t, id);
            lemma_take_next_forgets(m.returned(t), untried, id);
        },
        PoolEvent::Broken(t) => {
            assert(!m.discarded(t).pooled(id));
            lemma_take_next_forgets(m.discarded(t), untried, id);
        },
        PoolEvent::Connected(control) => {
            if m.minted < u64::MAX {
                PooledSession::lemma_fresh(m.minted as u64, control);
                let n = m.step(untried, event).model;
                assert(!n.pooled(id));
            }
        },
        PoolEvent::ConnectFailed => {},
    }
}

proof fn lemma_returned_forgets<C>(m: PoolModel<C>, t: PooledSession<C>, id: u64)
    requires
        m.lent.contains(t.ident()),
        m.evicted(id),
    ensures
        m.returned(t).evicted(id),
{
    let r = m.returned(t);
    if r.pooled(id) {
        let i = choose|i: int| 0 <= i < r.sessions.len() && #[trigger] r.sessions[i].ident() == id;
        if i < m.sessions.len() {
            assert(m.sessions[i].ident() == id);
        }
    }
}

proof fn lemma_take_next_forgets<C>(m: PoolModel<C>, untried: nat, id: u64)
    requires
        id < m.minted,
        !m.known(id),
    ensures
        m.take_next(untried).model.evicted(id),
        m.take_next(untried).action matches PoolAction::Open(t) ==> t.ident() != id,
{
    let n = m.take_next(untried).model;
    if untried > 0 && m.sessions.len() > 0 {
        assert(m.sessions[0].ident() != id);
        if n.pooled(id) {
            let i = choose|i: int|
                0 <= i < n.sessions.len() && #[trigger] n.sessions[i].ident() == id;
            assert(m.sessions[i + 1].ident() == id);
        }
    }
}

/// The sessions that are ready to give sub-streams, in the order in which
/// they are tried.
pub struct ConnectionPool<C> {
    conns: VecDeque<PooledSession<C>>,
    next_id: u64,
    lent: Ghost<Set<u64>>,
}

impl<C> ConnectionPool<C> {
    /// The pool as contracts see it.
    pub closed spec fn model(&self) -> PoolModel<C> {
        PoolModel { sessions: self.conns@, minted: self.next_id as nat, lent: self.lent@ }
    }

    /// The pool's invariant.
    pub open spec fn wf(&self) -> bool {
        self.model().wf()
    }

    /// An empty pool.
    pub fn new() -> (pool: ConnectionPool<C>)
        ensures
            pool.wf(),
            pool.model().sessions == Seq::<PooledSession<C>>::empty(),
            pool.model().minted == 0,
            pool.model().lent == Set::<u64>::empty(),
    {
        ConnectionPool { conns: VecDeque::new(), next_id: 0, lent: Ghost(Set::empty()) }
    }

    /// The number of pooled sessions.
    pub fn len(&self) -> (n: usize)
        ensures
            n == self.model().sessions.len(),
    {
        self.conns.len()
    }

    fn give_back(&mut self, s: PooledSession<C>)
        requires
            old(self).wf(),
            old(self).model().lent.contains(s.ident()),
        ensures
            final(self).wf(),
            final(self).model() == old(self).model().returned(s),
    {
        proof {
            lemma_returned_keeps_wf(self.model(), s);
        }
        self.lent = Ghost(self.lent@.remove(s.id));
        self.conns.push_back(s);
    }

    fn discard(&mut self, s: PooledSession<C>)
        requires
            old(self).wf(),
        ensures
            final(self).wf(),
            final(self).model() == old(self).model().discarded(s),
    {
        proof {
            lemma_discarded_keeps_wf(self.model(), s);
        }
        self.lent = Ghost(self.lent@.remove(s.id));
    }

    fn take_next(&mut self, attempt: &mut Acquisition) -> (action: PoolAction<C>)
        requires
            old(self).wf(),
        ensures
            final(self).wf(),
            final(self).model() == old(self).model().take_next(old(attempt).untried as nat).model,
            final(attempt).untried == old(self).model().take_next(
                old(attempt).untried as nat,
            ).untried,
            action == old(self).model().take_next(old(attempt).untried as nat).action,
    {
        if attempt.untried > 0 {
            let ghost m = self.model();
            match self.conns.pop_front() {
                Some(s) => {
                    attempt.untried = attempt.untried - 1;
                    self.lent = Ghost(self.lent@.insert(s.id));
                    proof {
                        assert(self.model().sessions =~= m.sessions.skip(1));
                        lemma_take_next_keeps_wf(m, (attempt.untried + 1) as nat);
                    }
                    PoolAction::Open(s)
                },
                None => {
                    attempt.untried = 0;
                    PoolAction::Connect
                },
            }
        } else {
            PoolAction::Connect
        }
    }

    /// Takes an event of one client's request and says what to do next,
    /// by the pool's rule (see [`PoolModel::step`]).
    pub fn acquire_stream(&mut self, attempt: &mut Acquisition, event: PoolEvent<C>) -> (action:
        PoolAction<C>)
        requires
            old(self).wf(),
            old(self).model().admits(event),
        ensures
            final(self).wf(),
            final(self).model() == old(self).model().step(old(attempt).untried as nat, event).model,
            final(attempt).untried == old(self).model().step(
                old(attempt).untried as nat,
                event,
            ).untried,
            action == old(self).model().step(old(attempt).untried as nat, event).action,
    {
        match event {
            PoolEvent::Acquire => {
                attempt.untried = self.conns.len();
                self.take_next(attempt)
            },
            PoolEvent::Opened(s) => {
                self.give_back(s);
                PoolAction::Yield
            },
            PoolEvent::Exhausted(s) => {
                self.give_back(s);
                self.take_next(attempt)
            },
            PoolEvent::Broken(s) => {
                self.discard(s);
                self.take_next(attempt)
            },
            PoolEvent::Connected(control) => {
                if self.next_id < u64::MAX {
                    let s = PooledSession { id: self.next_id, control };
                    self.lent = Ghost(self.lent@.insert(self.next_id));
                    self.next_id = self.next_id + 1;
                    PoolAction::Open(s)
                } else {
                    PoolAction::Fail
                }
            },
            PoolEvent::ConnectFailed => PoolAction::Fail,
        }
    }
}

impl Acquisition {
    /// A request that has not started.
    pub fn new() -> (a: Acquisition)
        ensures
            a.untried == 0,
    {
        Acquisition { untried: 0 }
    }
}

} // verus!
