//! Address resolution: a cache of resolved names, and the order in which
//! the addresses of a name are tried.

use crate::config::{IpAddress, ServerAddr, SocketAddress};
use lru_time_cache::LruCache;
use std::time::Duration;
use vstd::prelude::*;

verus! {

/// For how long a resolved name is kept, in seconds.
pub const DNS_CACHE_SECS: u64 = 300;

/// How many resolved names are kept at most.
pub const DNS_CACHE_ENTRIES: usize = 128;

/// The cache of `lru_time_cache`: a map that drops an entry when it has not
/// been used for a set time, and the entry used longest ago when it is
/// full. Contracts see it through `cache_entries` and `cache_capacity`.
#[verifier::external_type_specification]
#[verifier::external_body]
#[verifier::reject_recursive_types(Key)]
#[verifier::reject_recursive_types(Value)]
pub struct ExLruCache<Key, Value>(LruCache<Key, Value>);

/// The names that a cache holds, each with its address.
pub uninterp spec fn cache_entries(cache: LruCache<String, IpAddress>) -> Map<Seq<char>, IpAddress>;

/// The number of entries that a cache was made for.
pub uninterp spec fn cache_capacity(cache: LruCache<String, IpAddress>) -> nat;

/// The entries of a cache that holds nothing.
pub open spec fn no_entries() -> Map<Seq<char>, IpAddress> {
    Map::empty()
}

/// Makes an empty cache.
///
/// Calls `LruCache::with_expiry_duration_and_capacity` of `lru_time_cache`,
/// which makes a cache without entries that keeps an entry for the given
/// time and holds the given number of entries at most.
#[verifier::external_body]
fn cache_with_expiry(seconds: u64, capacity: usize) -> (made: LruCache<String, IpAddress>)
    requires
        seconds <= 0xffff_ffff,
        capacity <= 0xffff,
    ensures
        cache_entries(made) == no_entries(),
        cache_capacity(made) == capacity,
{
    LruCache::with_expiry_duration_and_capacity(Duration::from_secs(seconds), capacity)
}

/// Looks a name up in the cache.
///
/// Calls `LruCache::get` of `lru_time_cache`, which first drops the entries
/// that have expired and then gives the value under the key, if the key is
/// still there. Which entries have expired depends on the clock, so the
/// contract says only that none is added or changed.
#[verifier::external_body]
fn cache_get(cache: &mut LruCache<String, IpAddress>, name: &str) -> (found: Option<IpAddress>)
    ensures
        cache_entries(*final(cache)).submap_of(cache_entries(*old(cache))),
        cache_capacity(*final(cache)) == cache_capacity(*old(cache)),
        found == (if cache_entries(*final(cache)).contains_key(name@) {
            Some(cache_entries(*final(cache))[name@])
        } else {
            None
        }),
{
    cache.get(name).copied()
}

/// Puts a name with its address into the cache.
///
/// Calls `LruCache::insert` of `lru_time_cache`, which first drops the
/// entries that have expired, makes room by dropping the entry used longest
/// ago where the cache is full, and then stores the value under the key. It
/// panics in a cache that was made for no entries.
#[verifier::external_body]
fn cache_insert(cache: &mut LruCache<String, IpAddress>, name: String, addr: IpAddress)
    requires
        cache_capacity(*old(cache)) > 0,
    ensures
        cache_entries(*final(cache)).contains_key(name@),
        cache_entries(*final(cache))[name@] == addr,
        cache_entries(*final(cache)).remove(name@).submap_of(cache_entries(*old(cache))),
        cache_capacity(*final(cache)) == cache_capacity(*old(cache)),
{
    let _ = cache.insert(name, addr);
}

/// Why a name could not be resolved.
#[derive(Clone, Copy, Debug, PartialEq, Eq, Structural)]
pub enum ResolveError {
    /// The lookup gave no answer, or an answer without addresses.
    NotFound,
}

/// The resolver: it remembers the names it has resolved, for a while.
pub struct Resolver {
    cache: LruCache<String, IpAddress>,
}

impl Resolver {
    /// The names that the resolver remembers, each with its address.
    pub closed spec fn entries(&self) -> Map<Seq<char>, IpAddress> {
        cache_entries(self.cache)
    }

    /// The resolver's invariant: its cache has room for an entry.
    pub closed spec fn wf(&self) -> bool {
        cache_capacity(self.cache) > 0
    }

    /// A resolver that remembers nothing yet.
    pub fn new() -> (resolver: Resolver)
        ensures
            resolver.wf(),
            resolver.entries() == no_entries(),
    {
        Resolver { cache: cache_with_expiry(DNS_CACHE_SECS, DNS_CACHE_ENTRIES) }
    }
}

/// Resolves a host without a lookup, if that can be done. `literal` is the
/// IP address that `addr` spells, if it spells one: that is then the answer.
/// Otherwise the answer is what the resolver remembers of the name, and
/// `None` says that the name has to be looked up.
pub fn resolve(resolver: &mut Resolver, addr: &str, literal: Option<IpAddress>) -> (found: Option<
    IpAddress,
>)
    requires
        old(resolver).wf(),
    ensures
        final(resolver).wf(),
        final(resolver).entries().submap_of(old(resolver).entries()),
        literal is Some ==> found == literal
            && final(resolver).entries() == old(resolver).entries(),
        literal is None ==> found == (if final(resolver).entries().contains_key(addr@) {
            Some(final(resolver).entries()[addr@])
        } else {
            None
        }),
{
    match literal {
        Some(ip) => Some(ip),
        None => cache_get(&mut resolver.cache, addr),
    }
}

/// Takes the answer of a lookup for `addr`: the first address of the
/// answer resolves the name and is remembered. No answer, or one without
/// addresses, is an error and changes nothing.
pub fn resolve_answer(resolver: &mut Resolver, addr: String, answer: Option<Vec<IpAddress>>) -> (r:
    Result<IpAddress, ResolveError>)
    requires
        old(resolver).wf(),
    ensures
        final(resolver).wf(),
        match answer {
            Some(addrs) if addrs@.len() > 0 => {
                &&& r == Ok::<IpAddress, ResolveError>(addrs@[0])
                &&& final(resolver).entries().contains_key(addr@)
                &&& final(resolver).entries()[addr@] == addrs@[0]
                &&& final(resolver).entries().remove(addr@).submap_of(old(resolver).entries())
            },
            _ => r == Err::<IpAddress, ResolveError>(ResolveError::NotFound)
                && final(resolver).entries() == old(resolver).entries(),
        },
{
    match answer {
        None => Err(ResolveError::NotFound),
        Some(addrs) => {
            if addrs.len() == 0 {
                Err(ResolveError::NotFound)
            } else {
                let ip = addrs[0];
                cache_insert(&mut resolver.cache, addr, ip);
                Ok(ip)
            }
        },
    }
}

/// Resolves the address of a server without a lookup, if that can be done:
/// a literal address is its own answer, and a host name is resolved as
/// `resolve` does, with the server's port.
pub fn resolve_server_addr(resolver: &mut Resolver, addr: &ServerAddr, literal: Option<IpAddress>)
    -> (found: Option<SocketAddress>)
    requires
        old(resolver).wf(),
    ensures
        final(resolver).wf(),
        final(resolver).entries().submap_of(old(resolver).entries()),
        match *addr {
            ServerAddr::SocketAddr(s) => found == Some(s)
                && final(resolver).entries() == old(resolver).entries(),
            ServerAddr::DomainName(domain, port) => match literal {
                Some(ip) => found == Some(SocketAddress { ip, port }),
                None => found == (if final(resolver).entries().contains_key(domain@) {
                    Some(SocketAddress { ip: final(resolver).entries()[domain@], port })
                } else {
                    None
                }),
            },
        },
{
    match addr {
        ServerAddr::SocketAddr(s) => Some(*s),
        ServerAddr::DomainName(domain, port) => {
            match resolve(resolver, domain.as_str(), literal) {
                Some(ip) => Some(SocketAddress { ip, port: *port }),
                None => None,
            }
        },
    }
}

/// Why no connection could be made.
#[derive(Clone, Copy, Debug, PartialEq, Eq, Structural)]
pub enum ConnectError {
    /// The lookup, or the last address tried, failed with this error code.
    Io(i32),
    /// The name resolved to no address at all.
    NoAddress,
}

/// What the caller reports while it connects to a server.
#[derive(Debug)]
pub enum DialEvent {
    /// The lookup gave these addresses, in this order.
    Resolved(Vec<SocketAddress>),
    /// The lookup failed.
    LookupFailed(i32),
    /// The connection to the address under trial was made.
    Connected,
    /// The connection to the address under trial failed.
    Failed(i32),
}

/// What the caller is to do next.
#[derive(Clone, Copy, Debug, PartialEq, Eq, Structural)]
pub enum DialAction {
    /// Look the server's name up.
    Lookup,
    /// Try to connect to this address.
    Try(SocketAddress),
    /// Use the connection that was made, to this address.
    Done(SocketAddress),
    /// Give up with this error.
    Fail(ConnectError),
}

/// How far a connection attempt has come, as contracts see it.
#[verifier::ext_equal]
pub struct DialModel {
    /// Whether the addresses to try are known.
    pub resolved: bool,
    /// The addresses to try, in order.
    pub candidates: Seq<SocketAddress>,
    /// How many of them have been tried, the one under trial included.
    pub tried: nat,
}

/// The event, with collections as contracts see them.
pub enum DialEventModel {
    Resolved(Seq<SocketAddress>),
    LookupFailed(i32),
    Connected,
    Failed(i32),
}

impl DialEvent {
    /// The event as contracts see it.
    pub open spec fn model(&self) -> DialEventModel {
        match *self {
            DialEvent::Resolved(addrs) => DialEventModel::Resolved(addrs@),
            DialEvent::LookupFailed(code) => DialEventModel::LookupFailed(code),
            DialEvent::Connected => DialEventModel::Connected,
            DialEvent::Failed(code) => DialEventModel::Failed(code),
        }
    }
}

impl DialModel {
    /// Whether an address is under trial.
    pub open spec fn trying(self) -> bool {
        self.resolved && 0 < self.tried <= self.candidates.len()
    }

    /// The start: a literal address is tried at once, a name is looked up.
    pub open spec fn start(target: ServerAddr) -> (DialModel, DialAction) {
        match target {
            ServerAddr::SocketAddr(addr) => (
                DialModel { resolved: true, candidates: seq![addr], tried: 1 },
                DialAction::Try(addr),
            ),
            ServerAddr::DomainName(_, _) => (
                DialModel { resolved: false, candidates: Seq::empty(), tried: 0 },
                DialAction::Lookup,
            ),
        }
    }

    /// The rule: the addresses of a name are tried in the order of the
    /// lookup's answer, and the first connection that is made is the
    /// result. When all have failed, the error of the last one is the
    /// result; when there was none to try, that is the error. An event that
    /// cannot occur gives nothing.
    pub open spec fn step(self, event: DialEventModel) -> Option<(DialModel, DialAction)> {
        match event {
            DialEventModel::Resolved(addrs) => if self.resolved {
                None
            } else if addrs.len() == 0 {
                Some(
                    (
                        DialModel { resolved: true, candidates: addrs, tried: 0 },
                        DialAction::Fail(ConnectError::NoAddress),
                    ),
                )
            } else {
                Some(
                    (
                        DialModel { resolved: true, candidates: addrs, tried: 1 },
                        DialAction::Try(addrs[0]),
                    ),
                )
            },
            DialEventModel::LookupFailed(code) => if self.resolved {
                None
            } else {
                Some(
                    (
                        DialModel { resolved: true, candidates: Seq::empty(), tried: 0 },
                        DialAction::Fail(ConnectError::Io(code)),
                    ),
                )
            },
            DialEventModel::Connected => if self.trying() {
                Some(
                    (
                        DialModel { tried: 0, ..self },
                        DialAction::Done(self.candidates[self.tried - 1]),
                    ),
                )
            } else {
                None
            },
            DialEventModel::Failed(code) => if !self.trying() {
                None
            } else if self.tried < self.candidates.len() {
                Some(
                    (
                        DialModel { tried: self.tried + 1, ..self },
                        DialAction::Try(self.candidates[self.tried as int]),
                    ),
                )
            } else {
                Some((DialModel { tried: 0, ..self }, DialAction::Fail(ConnectError::Io(code))))
            },
        }
    }

    /// The action that ends the attempt when the addresses from the one
    /// under trial on give the results of `results`: `None` for a
    /// connection made, an error code for a failure.
    pub open spec fn outcome(self, results: Seq<Option<i32>>) -> DialAction
        decreases self.candidates.len() - self.tried,
    {
        if !self.trying() || results.len() != self.candidates.len() {
            DialAction::Fail(ConnectError::NoAddress)
        } else {
            let event = match results[self.tried - 1] {
                None => DialEventModel::Connected,
                Some(code) => DialEventModel::Failed(code),
            };
            match self.step(event) {
                Some((next, DialAction::Try(_))) => next.outcome(results),
                Some((_, action)) => action,
                None => DialAction::Fail(ConnectError::NoAddress),
            }
        }
    }
}

/// A connection attempt: the addresses to try and how many were tried.
pub struct Dial {
    resolved: bool,
    candidates: Vec<SocketAddress>,
    tried: usize,
}

impl Dial {
    /// The attempt as contracts see it.
    pub closed spec fn model(&self) -> DialModel {
        DialModel {
            resolved: self.resolved,
            candidates: self.candidates@,
            tried: self.tried as nat,
        }
    }

    /// An attempt to connect to `target`, and the first thing to do.
    pub fn start(target: &ServerAddr) -> (r: (Dial, DialAction))
        ensures
            (r.0.model(), r.1) == DialModel::start(*target),
    {
        match target {
            ServerAddr::SocketAddr(addr) => {
                let mut candidates: Vec<SocketAddress> = Vec::new();
                candidates.push(*addr);
                proof {
                    assert(candidates@ =~= seq![*addr]);
                }
                (Dial { resolved: true, candidates, tried: 1 }, DialAction::Try(*addr))
            },
            ServerAddr::DomainName(_, _) => {
                (Dial { resolved: false, candidates: Vec::new(), tried: 0 }, DialAction::Lookup)
            },
        }
    }

    /// Takes an event and says what to do next, by the rule of
    /// [`DialModel::step`]. An event that cannot occur changes nothing and
    /// gives `None`.
    pub fn step(&mut self, event: DialEvent) -> (action: Option<DialAction>)
        ensures
            match old(self).model().step(event.model()) {
                Some((next, act)) => final(self).model() == next && action == Some(act),
                None => final(self).model() == old(self).model() && action.is_none(),
            },
    {
        match event {
            DialEvent::Resolved(addrs) => {
                if self.resolved {
                    return None;
                }
                self.resolved = true;
                if addrs.len() == 0 {
                    self.candidates = addrs;
                    self.tried = 0;
                    Some(DialAction::Fail(ConnectError::NoAddress))
                } else {
                    let first = addrs[0];
                    self.candidates = addrs;
                    self.tried = 1;
                    Some(DialAction::Try(first))
                }
            },
            DialEvent::LookupFailed(code) => {
                if self.resolved {
                    return None;
                }
                self.resolved = true;
                self.candidates = Vec::new();
                self.tried = 0;
                Some(DialAction::Fail(ConnectError::Io(code)))
            },
            DialEvent::Connected => {
                if self.resolved && 0 < self.tried && self.tried <= self.candidates.len() {
                    let addr = self.candidates[self.tried - 1];
                    self.tried = 0;
                    Some(DialAction::Done(addr))
                } else {
                    None
                }
            },
            DialEvent::Failed(code) => {
                if !(self.resolved && 0 < self.tried && self.tried <= self.candidates.len()) {
                    None
                } else if self.tried < self.candidates.len() {
                    let addr = self.candidates[self.tried];
                    self.tried = self.tried + 1;
                    Some(DialAction::Try(addr))
                } else {
                    self.tried = 0;
                    Some(DialAction::Fail(ConnectError::Io(code)))
                }
            },
        }
    }
}

/// Fallback. When the addresses of a name are tried in order, the attempt
/// ends with the first address to which a connection is made, and the
/// errors of the addresses before it are not reported. When every address
/// fails, the attempt ends with the error of the last one.
pub proof fn lemma_dial_fallback(m: DialModel, results: Seq<Option<i32>>, k: int)
    requires
        m.trying(),
        results.len() == m.candidates.len(),
        m.tried - 1 <= k <= results.len(),
        forall|j: int| m.tried - 1 <= j < k ==> (#[trigger] results[j]) is Some,
        k < results.len() ==> results[k] is None,
    ensures
        k < results.len() ==> m.outcome(results) == DialAction::Done(m.candidates[k]),
        k == results.len() ==> m.outcome(results) == DialAction::Fail(
            ConnectError::Io(results[k - 1]->0),
        ),
    decreases m.candidates.len() - m.tried,
{
    let here = m.tried - 1;
    if k > here {
        assert(results[here] is Some);
        if m.tried < m.candidates.len() {
            let next = DialModel { tried: m.tried + 1, ..m };
            lemma_dial_fallback(next, results, k);
        }
    }
}

/// A lookup's answer starts the trial at its first address, and an empty
/// answer is an error of its own.
pub proof fn lemma_dial_resolved(addrs: Seq<SocketAddress>)
    ensures
        ({
            let fresh = DialModel { resolved: false, candidates: Seq::empty(), tried: 0 };
            match fresh.step(DialEventModel::Resolved(addrs)) {
                Some((next, action)) => {
                    &&& next.candidates == addrs
                    &&& addrs.len() == 0 ==> action == DialAction::Fail(ConnectError::NoAddress)
                    &&& addrs.len() > 0 ==> action == DialAction::Try(addrs[0]) && next.trying()
                        && next.tried == 1
                },
                None => false,
            }
        }),
{
}

} // verus!
