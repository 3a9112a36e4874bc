//! Finding which node holds an alias.
//!
//! A node registers aliases (numbers chosen by the application) and tells
//! every other node when an alias appears or goes away.  Each node keeps a
//! bounded cache of those hints.  To find an alias, a node first asks the
//! hinted nodes to confirm (`Check`); when none confirms, or none is known,
//! it asks every node (`Scan`) and takes the answer of a node that has
//! announced the alias.  Announcements carry a generation, so an old one
//! cannot undo a newer one.
//!
//! `AliasServiceInternal` is the service's state machine: it takes control
//! requests, messages from other nodes and clock ticks, and queues the
//! messages to send and the answers owed to waiting finders.  Waiters are
//! handles of any type `W`, handed back with their answer.
use std::collections::{BTreeMap, BTreeSet, VecDeque};
use std::num::NonZeroUsize;

use lru::LruCache;
use vstd::prelude::*;

use crate::ordered::{keys_in_order, set_in_order, sorted_keys};
use crate::peer::PeerId;

pub mod properties;

verus! {

broadcast use vstd::std_specs::btree::group_btree_axioms, vstd::laws_cmp::group_laws_cmp;

pub const LRU_CACHE_SIZE: usize = 1_000_000;

pub const ALIAS_LIFECYCLE_CACHE_SIZE: usize = 1_000_000;

/// How many control requests may wait for the service.
pub const ALIAS_CONTROL_QUEUE_SIZE: usize = 1024;

pub const MAX_ALIAS_HINT_PEERS: usize = 1024;

pub const MAX_WAITERS_PER_ALIAS: usize = 1024;

pub const MAX_PENDING_FIND_REQUESTS: usize = 1024;

pub const HINT_TIMEOUT_MS: u64 = 500;

pub const SCAN_TIMEOUT_MS: u64 = 1000;

/// Whether the deadline `requested_at + timeout_ms` has passed at `now`.  A
/// deadline beyond the last representable time never passes, so a request
/// is kept alive rather than expired early.
pub open spec fn expired(requested_at: u64, timeout_ms: u64, now: u64) -> bool {
    requested_at + timeout_ms <= u64::MAX && requested_at + timeout_ms <= now
}

pub fn deadline_expired(requested_at: u64, timeout_ms: u64, now: u64) -> (r: bool)
    ensures
        r == expired(requested_at, timeout_ms, now),
{
    match requested_at.checked_add(timeout_ms) {
        Some(deadline) => deadline <= now,
        None => false,
    }
}

#[derive(Debug, Clone, Copy, PartialEq, Eq, Hash, Structural)]
pub struct AliasId(pub u64);

impl From<u64> for AliasId {
    fn from(v: u64) -> (r: AliasId) {
        AliasId(v)
    }
}

impl vstd::std_specs::convert::FromSpecImpl<u64> for AliasId {
    open spec fn obeys_from_spec() -> bool {
        true
    }

    open spec fn from_spec(v: u64) -> AliasId {
        AliasId(v)
    }
}

/// Where an alias was found: on this node, on a node that a hint named,
/// or on a node that answered a scan.
#[derive(Debug, Clone, Copy, PartialEq, Eq, Structural)]
pub enum AliasFoundLocation {
    Local,
    Hint(PeerId),
    Scan(PeerId),
}

#[derive(Debug, Clone, Copy, PartialEq, Eq, Structural)]
pub enum AliasMessage {
    /// The sender holds the alias, announced with this generation.
    NotifySet(AliasId, u64),
    /// The sender no longer holds the alias, announced with this generation.
    NotifyDel(AliasId, u64),
    /// Does the receiver hold the alias?
    Check(AliasId),
    /// Every node that holds the alias is asked to answer.
    Scan(AliasId),
    Found(AliasId),
    NotFound(AliasId),
    /// The sender stops serving aliases.
    Shutdown,
}

pub enum AliasControl<W> {
    Register(AliasId),
    Unregister(AliasId),
    Find(AliasId, W),
    Shutdown,
}

#[derive(Debug, Clone, Copy, PartialEq, Eq, Structural)]
pub struct RemoteAliasState {
    pub generation: u64,
    pub active: bool,
}

#[derive(Debug, Clone, Copy, PartialEq, Eq, Structural)]
pub enum InternalOutput {
    Broadcast(AliasMessage),
    Unicast(PeerId, AliasMessage),
}

#[verifier::external_type_specification]
#[verifier::external_body]
#[verifier::reject_recursive_types(K)]
#[verifier::reject_recursive_types(V)]
#[verifier::reject_recursive_types(S)]
pub struct ExLruCache<K, V, S>(LruCache<K, V, S>);

#[verifier::external_type_specification]
#[verifier::external_body]
pub struct ExLruDefaultHasher(lru::DefaultHasher);

/// The hints held by a cache of alias hints: for each alias, the nodes
/// that announced it.
pub uninterp spec fn hint_entries(c: LruCache<u64, BTreeSet<u64>>) -> Map<u64, Set<u64>>;

/// The capacity that a cache of alias hints was made with.
pub uninterp spec fn hint_capacity(c: LruCache<u64, BTreeSet<u64>>) -> nat;

/// The aliases a cache of alias hints holds, most recently used first.
pub uninterp spec fn hint_order(c: LruCache<u64, BTreeSet<u64>>) -> Seq<u64>;

/// The announcements held by a cache of alias announcements, keyed by alias
/// and announcing node.
pub uninterp spec fn lifecycle_entries(c: LruCache<(u64, u64), RemoteAliasState>) -> Map<
    (u64, u64),
    RemoteAliasState,
>;

/// The capacity that a cache of alias announcements was made with.
pub uninterp spec fn lifecycle_capacity(c: LruCache<(u64, u64), RemoteAliasState>) -> nat;

/// The keys a cache of alias announcements holds, most recently used first.
pub uninterp spec fn lifecycle_order(c: LruCache<(u64, u64), RemoteAliasState>) -> Seq<(u64, u64)>;

/// `order` lists the keys of `entries`, each once.
pub open spec fn lists_keys<K, V>(order: Seq<K>, entries: Map<K, V>) -> bool {
    order.to_set() == entries.dom() && order.no_duplicates()
}

/// `order` with `k` moved, or added, to the front.
pub open spec fn touch<K>(order: Seq<K>, k: K) -> Seq<K> {
    seq![k] + order.remove_value(k)
}

/// What an LRU cache holds, and in what order, after `put(k, v)`: the key
/// moves to the front; when it is new and the cache is full, the least
/// recently used entry, the last in the order, is dropped first.
pub open spec fn lru_put_ordered<K, V>(
    before: Map<K, V>,
    order: Seq<K>,
    cap: nat,
    k: K,
    v: V,
    after: Map<K, V>,
    order_after: Seq<K>,
) -> bool {
    if before.contains_key(k) || before.len() < cap {
        order_after == touch(order, k)
    } else {
        &&& after == before.remove(order.last()).insert(k, v)
        &&& order_after == seq![k] + order.drop_last()
    }
}

/// What an LRU cache holds after `put(k, v)`: with `k` already there, or
/// room left, the pair is added or replaced; at capacity some other entry,
/// the least recently used, is dropped first.
pub open spec fn lru_put<K, V>(before: Map<K, V>, cap: nat, k: K, v: V, after: Map<K, V>) -> bool {
    if before.contains_key(k) || before.len() < cap {
        after == before.insert(k, v)
    } else {
        exists|e: K| before.contains_key(e) && e != k && after == before.remove(e).insert(k, v)
    }
}

/// A cache of alias hints made by `lru::LruCache::new` with capacity `cap`:
/// empty, with that capacity.
#[verifier::external_body]
fn new_hint_cache(cap: usize) -> (cache: LruCache<u64, BTreeSet<u64>>)
    requires
        cap > 0,
    ensures
        hint_entries(cache).is_empty(),
        hint_capacity(cache) == cap,
        hint_order(cache) == Seq::<u64>::empty(),
{
    LruCache::new(NonZeroUsize::new(cap).unwrap_or(NonZeroUsize::MIN))
}

/// `lru::LruCache::get`, its result cloned: the hints of `k`.  It marks
/// `k` as the most recently used, which changes no entry.
#[verifier::external_body]
fn hint_get(c: &mut LruCache<u64, BTreeSet<u64>>, k: u64) -> (r: Option<BTreeSet<u64>>)
    ensures
        hint_entries(*final(c)) == hint_entries(*old(c)),
        hint_capacity(*final(c)) == hint_capacity(*old(c)),
        hint_order(*final(c)) == if hint_entries(*old(c)).contains_key(k) {
            touch(hint_order(*old(c)), k)
        } else {
            hint_order(*old(c))
        },
        lists_keys(hint_order(*final(c)), hint_entries(*final(c))),
        r is Some <==> hint_entries(*old(c)).contains_key(k),
        r is Some ==> r->0@ == hint_entries(*old(c))[k],
{
    c.get(&k).cloned()
}

/// `lru::LruCache::peek`, its result cloned: the hints of `k`.
#[verifier::external_body]
fn hint_peek(c: &LruCache<u64, BTreeSet<u64>>, k: u64) -> (r: Option<BTreeSet<u64>>)
    ensures
        r is Some <==> hint_entries(*c).contains_key(k),
        r is Some ==> r->0@ == hint_entries(*c)[k],
{
    c.peek(&k).cloned()
}

/// `lru::LruCache::put`; see `lru_put`.
#[verifier::external_body]
fn hint_put(c: &mut LruCache<u64, BTreeSet<u64>>, k: u64, v: BTreeSet<u64>)
    ensures
        lru_put(hint_entries(*old(c)), hint_capacity(*old(c)), k, v@, hint_entries(*final(c))),
        lru_put_ordered(
            hint_entries(*old(c)),
            hint_order(*old(c)),
            hint_capacity(*old(c)),
            k,
            v@,
            hint_entries(*final(c)),
            hint_order(*final(c)),
        ),
        lists_keys(hint_order(*final(c)), hint_entries(*final(c))),
        hint_capacity(*final(c)) == hint_capacity(*old(c)),
{
    c.put(k, v);
}

/// `lru::LruCache::pop`: the entry of `k` is removed.
#[verifier::external_body]
fn hint_pop(c: &mut LruCache<u64, BTreeSet<u64>>, k: u64)
    ensures
        hint_entries(*final(c)) == hint_entries(*old(c)).remove(k),
        hint_capacity(*final(c)) == hint_capacity(*old(c)),
        hint_order(*final(c)) == hint_order(*old(c)).remove_value(k),
        lists_keys(hint_order(*final(c)), hint_entries(*final(c))),
{
    c.pop(&k);
}

/// The keys that `lru::LruCache::iter` walks, each once.
#[verifier::external_body]
fn hint_keys(c: &LruCache<u64, BTreeSet<u64>>) -> (r: Vec<u64>)
    ensures
        r@.to_set() == hint_entries(*c).dom(),
        r@.no_duplicates(),
        r@ == hint_order(*c),
{
    c.iter().map(|(k, _)| *k).collect()
}

/// A cache of alias announcements made by `lru::LruCache::new` with
/// capacity `cap`: empty, with that capacity.
#[verifier::external_body]
fn new_lifecycle_cache(cap: usize) -> (cache: LruCache<(u64, u64), RemoteAliasState>)
    requires
        cap > 0,
    ensures
        lifecycle_entries(cache).is_empty(),
        lifecycle_capacity(cache) == cap,
        lifecycle_order(cache) == Seq::<(u64, u64)>::empty(),
{
    LruCache::new(NonZeroUsize::new(cap).unwrap_or(NonZeroUsize::MIN))
}

/// `lru::LruCache::get`, its result copied: the announcement under `k`.  It
/// marks `k` as the most recently used, which changes no entry.
#[verifier::external_body]
fn lifecycle_get(c: &mut LruCache<(u64, u64), RemoteAliasState>, k: (u64, u64)) -> (r: Option<
    RemoteAliasState,
>)
    ensures
        lifecycle_entries(*final(c)) == lifecycle_entries(*old(c)),
        lifecycle_capacity(*final(c)) == lifecycle_capacity(*old(c)),
        lifecycle_order(*final(c)) == if lifecycle_entries(*old(c)).contains_key(k) {
            touch(lifecycle_order(*old(c)), k)
        } else {
            lifecycle_order(*old(c))
        },
        lists_keys(lifecycle_order(*final(c)), lifecycle_entries(*final(c))),
        r is Some <==> lifecycle_entries(*old(c)).contains_key(k),
        r is Some ==> r->0 == lifecycle_entries(*old(c))[k],
{
    c.get(&k).copied()
}

/// `lru::LruCache::put`; see `lru_put`.
#[verifier::external_body]
fn lifecycle_put(c: &mut LruCache<(u64, u64), RemoteAliasState>, k: (u64, u64), v: RemoteAliasState)
    ensures
        lru_put(lifecycle_entries(*old(c)), lifecycle_capacity(*old(c)), k, v, lifecycle_entries(*final(c))),
        lru_put_ordered(
            lifecycle_entries(*old(c)),
            lifecycle_order(*old(c)),
            lifecycle_capacity(*old(c)),
            k,
            v,
            lifecycle_entries(*final(c)),
            lifecycle_order(*final(c)),
        ),
        lists_keys(lifecycle_order(*final(c)), lifecycle_entries(*final(c))),
        lifecycle_capacity(*final(c)) == lifecycle_capacity(*old(c)),
{
    c.put(k, v);
}

/// `lru::LruCache::pop`: the entry under `k` is removed.
#[verifier::external_body]
fn lifecycle_pop(c: &mut LruCache<(u64, u64), RemoteAliasState>, k: (u64, u64))
    ensures
        lifecycle_entries(*final(c)) == lifecycle_entries(*old(c)).remove(k),
        lifecycle_capacity(*final(c)) == lifecycle_capacity(*old(c)),
        lifecycle_order(*final(c)) == lifecycle_order(*old(c)).remove_value(k),
        lists_keys(lifecycle_order(*final(c)), lifecycle_entries(*final(c))),
{
    c.pop(&k);
}

/// The keys that `lru::LruCache::iter` walks, each once.
#[verifier::external_body]
fn lifecycle_keys(c: &LruCache<(u64, u64), RemoteAliasState>) -> (r: Vec<(u64, u64)>)
    ensures
        r@.to_set() == lifecycle_entries(*c).dom(),
        r@.no_duplicates(),
        r@ == lifecycle_order(*c),
{
    c.iter().map(|(k, _)| *k).collect()
}

#[derive(Debug, PartialEq, Eq)]
pub enum FindRequestState {
    /// Asked the hinted nodes at this time; these have not answered yet.
    CheckHint(u64, BTreeSet<u64>),
    /// Asked every node at this time.
    Scan(u64),
}

pub struct FindRequest<W> {
    pub state: FindRequestState,
    pub waits: Vec<W>,
}

pub enum FindStateView {
    CheckHint(u64, Set<u64>),
    Scan(u64),
}

pub struct FindView<W> {
    pub state: FindStateView,
    pub waits: Seq<W>,
}

impl View for FindRequestState {
    type V = FindStateView;

    open spec fn view(&self) -> FindStateView {
        match self {
            FindRequestState::CheckHint(t, hs) => FindStateView::CheckHint(*t, hs@),
            FindRequestState::Scan(t) => FindStateView::Scan(*t),
        }
    }
}

impl<W> View for FindRequest<W> {
    type V = FindView<W>;

    open spec fn view(&self) -> FindView<W> {
        FindView { state: self.state@, waits: self.waits@ }
    }
}

/// The state of the alias service.  Aliases and nodes are kept by number.
pub struct AliasServiceInternal<W> {
    /// The aliases registered here, with how many registrations hold each.
    pub local: BTreeMap<u64, usize>,
    /// The generation last announced for each alias registered here.
    pub local_generations: BTreeMap<u64, u64>,
    pub shutting_down: bool,
    /// Hints: for each alias, nodes that announced it.
    pub cache: LruCache<u64, BTreeSet<u64>>,
    /// The last announcement of each alias by each node.
    pub remote_lifecycle: LruCache<(u64, u64), RemoteAliasState>,
    /// The finds under way, by alias.
    pub find_reqs: BTreeMap<u64, FindRequest<W>>,
    /// Messages to send.
    pub outs: VecDeque<InternalOutput>,
    /// Answers owed to waiting finders.
    pub replies: VecDeque<(W, Option<AliasFoundLocation>)>,
}

pub struct AliasView<W> {
    pub local: Map<u64, usize>,
    pub local_generations: Map<u64, u64>,
    pub shutting_down: bool,
    pub cache: Map<u64, Set<u64>>,
    pub cache_cap: nat,
    pub lifecycle: Map<(u64, u64), RemoteAliasState>,
    pub lifecycle_cap: nat,
    pub find_reqs: Map<u64, FindView<W>>,
    pub outs: Seq<InternalOutput>,
    pub replies: Seq<(W, Option<AliasFoundLocation>)>,
}

impl<W> View for AliasServiceInternal<W> {
    type V = AliasView<W>;

    open spec fn view(&self) -> AliasView<W> {
        AliasView {
            local: self.local@,
            local_generations: self.local_generations@,
            shutting_down: self.shutting_down,
            cache: hint_entries(self.cache),
            cache_cap: hint_capacity(self.cache),
            lifecycle: lifecycle_entries(self.remote_lifecycle),
            lifecycle_cap: lifecycle_capacity(self.remote_lifecycle),
            find_reqs: self.find_reqs@.map_values(|r: FindRequest<W>| r@),
            outs: self.outs@,
            replies: self.replies@,
        }
    }
}

/// The nodes hinted for `a`; none when the cache has no entry for it.
pub open spec fn hints_of(cache: Map<u64, Set<u64>>, a: u64) -> Set<u64> {
    if cache.contains_key(a) {
        cache[a]
    } else {
        Set::empty()
    }
}

/// A hint of `p` for `a` is stored unless the hints of `a` are full and do
/// not hold `p` already.
pub open spec fn hint_admitted(cache: Map<u64, Set<u64>>, a: u64, p: u64) -> bool {
    hints_of(cache, a).contains(p) || hints_of(cache, a).len() < MAX_ALIAS_HINT_PEERS
}

pub open spec fn with_hint(cache: Map<u64, Set<u64>>, a: u64, p: u64) -> Map<u64, Set<u64>> {
    if hint_admitted(cache, a, p) {
        cache.insert(a, hints_of(cache, a).insert(p))
    } else {
        cache
    }
}

/// The hint of `p` for `a` is dropped, and the entry of `a` with it when no
/// hint is left.
pub open spec fn without_hint(cache: Map<u64, Set<u64>>, a: u64, p: u64) -> Map<u64, Set<u64>> {
    if cache.contains_key(a) {
        if cache[a].remove(p).is_empty() {
            cache.remove(a)
        } else {
            cache.insert(a, cache[a].remove(p))
        }
    } else {
        cache
    }
}

/// Every hint of `p` is dropped, and the entries left without hints.
pub open spec fn without_peer(cache: Map<u64, Set<u64>>, p: u64) -> Map<u64, Set<u64>> {
    Map::new(|a: u64| cache.contains_key(a) && !cache[a].remove(p).is_empty(), |a: u64| cache[a].remove(p))
}

/// Each alias in the cache has a hint.
pub open spec fn hints_nonempty(cache: Map<u64, Set<u64>>) -> bool {
    forall|a: u64| #[trigger] cache.contains_key(a) ==> !cache[a].is_empty()
}

/// The hints of `p` for the aliases in `d` are dropped, and the entries
/// left without hints.
pub open spec fn without_peer_in(cache: Map<u64, Set<u64>>, p: u64, d: Set<u64>) -> Map<u64, Set<u64>> {
    Map::new(
        |a: u64| cache.contains_key(a) && (d.contains(a) ==> !cache[a].remove(p).is_empty()),
        |a: u64| if d.contains(a) {
            cache[a].remove(p)
        } else {
            cache[a]
        },
    )
}

/// An announcement of `a` by `p` with generation `g` is taken unless one
/// of the same or a later generation was taken before.
pub open spec fn accepts(lifecycle: Map<(u64, u64), RemoteAliasState>, a: u64, p: u64, g: u64) -> bool {
    !lifecycle.contains_key((a, p)) || g > lifecycle[(a, p)].generation
}

/// Each of `waits` paired with the answer `r`.
pub open spec fn answered<W>(waits: Seq<W>, r: Option<AliasFoundLocation>) -> Seq<(W, Option<AliasFoundLocation>)> {
    waits.map_values(|w: W| (w, r))
}

/// The generation after the one last used for `a`, stuck at the largest.
pub open spec fn next_generation(gens: Map<u64, u64>, a: u64) -> u64 {
    let g = if gens.contains_key(a) {
        gens[a]
    } else {
        0
    };
    if g < u64::MAX {
        (g + 1) as u64
    } else {
        g
    }
}

/// The cache `actual` is `intended`, but that a put of `put` into `before`,
/// made at capacity, dropped some other entry.
pub open spec fn settled<K, V>(
    before: Map<K, V>,
    cap: nat,
    put: Option<K>,
    intended: Map<K, V>,
    actual: Map<K, V>,
) -> bool {
    match put {
        Some(k) => if before.contains_key(k) || before.len() < cap {
            actual == intended
        } else {
            exists|e: K| before.contains_key(e) && e != k && actual == intended.remove(e)
        },
        None => actual == intended,
    }
}

impl<W> AliasView<W> {
    /// Registrations are counted from one, and each registered alias has a
    /// generation.
    pub open spec fn wf(self) -> bool {
        &&& forall|a: u64| #[trigger] self.local.contains_key(a) ==> self.local[a] >= 1
        &&& forall|a: u64| #[trigger] self.local.contains_key(a) ==> self.local_generations.contains_key(a)
        &&& hints_nonempty(self.cache)
    }

    pub open spec fn send(self, o: InternalOutput) -> AliasView<W> {
        AliasView { outs: self.outs.push(o), ..self }
    }

    pub open spec fn reply(self, w: W, r: Option<AliasFoundLocation>) -> AliasView<W> {
        AliasView { replies: self.replies.push((w, r)), ..self }
    }

    /// The find for `a` ends, each of its waiters answered `r`.
    pub open spec fn finish(self, a: u64, r: Option<AliasFoundLocation>) -> AliasView<W> {
        AliasView {
            find_reqs: self.find_reqs.remove(a),
            replies: self.replies + answered(self.find_reqs[a].waits, r),
            ..self
        }
    }

    pub open spec fn with_state(self, a: u64, state: FindStateView) -> AliasView<W> {
        AliasView {
            find_reqs: self.find_reqs.insert(a, FindView { state, waits: self.find_reqs[a].waits }),
            ..self
        }
    }

    /// `new` is `intended`, with caches that the puts `hint_put` and
    /// `lifecycle_put` may have trimmed.
    pub open spec fn moves_to(
        self,
        intended: AliasView<W>,
        hint_put: Option<u64>,
        lifecycle_put: Option<(u64, u64)>,
        new: AliasView<W>,
    ) -> bool {
        &&& new == AliasView { cache: new.cache, lifecycle: new.lifecycle, ..intended }
        &&& settled(self.cache, self.cache_cap, hint_put, intended.cache, new.cache)
        &&& settled(self.lifecycle, self.lifecycle_cap, lifecycle_put, intended.lifecycle, new.lifecycle)
    }

    /// Where the answer of `from` that it holds `a` finds it: a hinted node
    /// that was asked, or, in a scan, a node whose last announcement of
    /// `a` said it holds it.
    pub open spec fn found_location(self, a: u64, from: u64) -> Option<AliasFoundLocation> {
        if self.find_reqs.contains_key(a) {
            match self.find_reqs[a].state {
                FindStateView::CheckHint(_, hs) => if hs.contains(from) {
                    Some(AliasFoundLocation::Hint(PeerId(from)))
                } else {
                    None
                },
                FindStateView::Scan(_) => if self.lifecycle.contains_key((a, from)) && self.lifecycle[(a, from)].active {
                    Some(AliasFoundLocation::Scan(PeerId(from)))
                } else {
                    None
                },
            }
        } else {
            None
        }
    }

    /// Whether `from` is a hinted node still asked about `a`.
    pub open spec fn awaits_check(self, a: u64, from: u64) -> bool {
        &&& self.find_reqs.contains_key(a)
        &&& self.find_reqs[a].state matches FindStateView::CheckHint(_, hs) && hs.contains(from)
    }

    /// The hinted nodes still asked about `a`.
    pub open spec fn checking(self, a: u64) -> Set<u64> {
        match self.find_reqs[a].state {
            FindStateView::CheckHint(_, hs) => hs,
            FindStateView::Scan(_) => Set::empty(),
        }
    }

    /// A message from `from`, with the caches as if nothing were dropped.
    pub open spec fn after_msg(self, now: u64, from: u64, msg: AliasMessage) -> AliasView<W> {
        match msg {
            AliasMessage::NotifySet(a, g) => if accepts(self.lifecycle, a.0, from, g) {
                AliasView {
                    lifecycle: self.lifecycle.insert((a.0, from), RemoteAliasState { generation: g, active: true }),
                    cache: with_hint(self.cache, a.0, from),
                    ..self
                }
            } else {
                self
            },
            AliasMessage::NotifyDel(a, g) => if accepts(self.lifecycle, a.0, from, g) {
                AliasView {
                    lifecycle: self.lifecycle.insert((a.0, from), RemoteAliasState { generation: g, active: false }),
                    cache: without_hint(self.cache, a.0, from),
                    ..self
                }
            } else {
                self
            },
            AliasMessage::Check(a) => self.send(
                InternalOutput::Unicast(
                    PeerId(from),
                    if self.local.contains_key(a.0) {
                        AliasMessage::Found(a)
                    } else {
                        AliasMessage::NotFound(a)
                    },
                ),
            ),
            AliasMessage::Scan(a) => if self.local.contains_key(a.0) {
                self.send(
                    InternalOutput::Unicast(PeerId(from), AliasMessage::NotifySet(a, self.local_generations[a.0])),
                ).send(InternalOutput::Unicast(PeerId(from), AliasMessage::Found(a)))
            } else {
                self
            },
            AliasMessage::Found(a) => match self.found_location(a.0, from) {
                Some(loc) => AliasView { cache: with_hint(self.cache, a.0, from), ..self }.finish(a.0, Some(loc)),
                None => self,
            },
            AliasMessage::NotFound(a) => if self.awaits_check(a.0, from) {
                let left = self.checking(a.0).remove(from);
                let s = AliasView { cache: without_hint(self.cache, a.0, from), ..self };
                if left.is_empty() {
                    s.with_state(a.0, FindStateView::Scan(now)).send(InternalOutput::Broadcast(AliasMessage::Scan(a)))
                } else {
                    match self.find_reqs[a.0].state {
                        FindStateView::CheckHint(t, _) => s.with_state(a.0, FindStateView::CheckHint(t, left)),
                        FindStateView::Scan(_) => s,
                    }
                }
            } else {
                self
            },
            AliasMessage::Shutdown => self.after_disconnect(now, from),
        }
    }

    /// The key whose hints a message from `from` puts into the cache.
    pub open spec fn msg_hint_put(self, from: u64, msg: AliasMessage) -> Option<u64> {
        match msg {
            AliasMessage::NotifySet(a, g) => if accepts(self.lifecycle, a.0, from, g) && hint_admitted(
                self.cache,
                a.0,
                from,
            ) {
                Some(a.0)
            } else {
                None
            },
            AliasMessage::Found(a) => if self.found_location(a.0, from) is Some && hint_admitted(self.cache, a.0, from) {
                Some(a.0)
            } else {
                None
            },
            _ => None,
        }
    }

    /// The key under which a message from `from` puts an announcement.
    pub open spec fn msg_lifecycle_put(self, from: u64, msg: AliasMessage) -> Option<(u64, u64)> {
        match msg {
            AliasMessage::NotifySet(a, g) => if accepts(self.lifecycle, a.0, from, g) {
                Some((a.0, from))
            } else {
                None
            },
            AliasMessage::NotifyDel(a, g) => if accepts(self.lifecycle, a.0, from, g) {
                Some((a.0, from))
            } else {
                None
            },
            _ => None,
        }
    }

    /// A find under way loses `peer` from the nodes it asks; with none left
    /// it scans.
    pub open spec fn drop_checked(self, a: u64, peer: u64, now: u64) -> AliasView<W> {
        match self.find_reqs[a].state {
            FindStateView::CheckHint(t, hs) => if hs.remove(peer).is_empty() {
                self.with_state(a, FindStateView::Scan(now)).send(
                    InternalOutput::Broadcast(AliasMessage::Scan(AliasId(a))),
                )
            } else {
                self.with_state(a, FindStateView::CheckHint(t, hs.remove(peer)))
            },
            FindStateView::Scan(_) => self,
        }
    }

    pub open spec fn drop_checked_all(self, keys: Seq<u64>, peer: u64, now: u64) -> AliasView<W>
        decreases keys.len(),
    {
        if keys.len() == 0 {
            self
        } else {
            self.drop_checked_all(keys.drop_last(), peer, now).drop_checked(keys.last(), peer, now)
        }
    }

    /// `peer` is gone: its announcements and hints are dropped, and finds
    /// that were waiting only on it scan instead, in alias order.
    pub open spec fn after_disconnect(self, now: u64, peer: u64) -> AliasView<W> {
        mid_view(self, peer).drop_checked_all(sorted_keys(self.find_reqs.dom()), peer, now)
    }

    /// A find whose deadline has passed: a check turns into a scan, a scan
    /// ends with no answer, its waiters answered last first.
    pub open spec fn expire(self, a: u64, now: u64) -> AliasView<W> {
        match self.find_reqs[a].state {
            FindStateView::CheckHint(t, _) => if expired(t, HINT_TIMEOUT_MS, now) {
                self.with_state(a, FindStateView::Scan(now)).send(
                    InternalOutput::Broadcast(AliasMessage::Scan(AliasId(a))),
                )
            } else {
                self
            },
            FindStateView::Scan(t) => if expired(t, SCAN_TIMEOUT_MS, now) {
                AliasView {
                    find_reqs: self.find_reqs.remove(a),
                    replies: self.replies + answered(self.find_reqs[a].waits.reverse(), None),
                    ..self
                }
            } else {
                self
            },
        }
    }

    pub open spec fn expire_all(self, keys: Seq<u64>, now: u64) -> AliasView<W>
        decreases keys.len(),
    {
        if keys.len() == 0 {
            self
        } else {
            self.expire_all(keys.drop_last(), now).expire(keys.last(), now)
        }
    }

    /// A tick at `now` expires the finds under way, in alias order.
    pub open spec fn after_tick(self, now: u64) -> AliasView<W> {
        self.expire_all(sorted_keys(self.find_reqs.dom()), now)
    }

    /// The finds under `keys` end with no answer, in order.
    pub open spec fn fail_all(self, keys: Seq<u64>) -> AliasView<W>
        decreases keys.len(),
    {
        if keys.len() == 0 {
            self
        } else {
            self.fail_all(keys.drop_last()).finish(keys.last(), None)
        }
    }

    /// Whether a control request can be served: a registration count must
    /// not run past the largest `usize`.
    pub open spec fn control_ok(self, control: AliasControl<W>) -> bool {
        match control {
            AliasControl::Register(a) => !self.local.contains_key(a.0) || self.local[a.0] < usize::MAX,
            _ => true,
        }
    }

    pub open spec fn after_control(self, now: u64, control: AliasControl<W>) -> AliasView<W> {
        match control {
            AliasControl::Register(a) => if self.shutting_down {
                self
            } else {
                let was_active = self.local.contains_key(a.0);
                let gens = if was_active {
                    self.local_generations
                } else {
                    self.local_generations.insert(a.0, next_generation(self.local_generations, a.0))
                };
                let counted = AliasView {
                    local: self.local.insert(
                        a.0,
                        if was_active {
                            (self.local[a.0] + 1) as usize
                        } else {
                            1
                        },
                    ),
                    local_generations: gens,
                    ..self
                };
                let answered = if self.find_reqs.contains_key(a.0) {
                    counted.finish(a.0, Some(AliasFoundLocation::Local))
                } else {
                    counted
                };
                answered.send(InternalOutput::Broadcast(AliasMessage::NotifySet(a, gens[a.0])))
            },
            AliasControl::Unregister(a) => if self.local.contains_key(a.0) {
                if self.local[a.0] == 1 {
                    let g = next_generation(self.local_generations, a.0);
                    AliasView {
                        local: self.local.remove(a.0),
                        local_generations: self.local_generations.insert(a.0, g),
                        ..self
                    }.send(InternalOutput::Broadcast(AliasMessage::NotifyDel(a, g)))
                } else {
                    AliasView { local: self.local.insert(a.0, (self.local[a.0] - 1) as usize), ..self }
                }
            } else {
                self
            },
            AliasControl::Find(a, w) => if self.shutting_down {
                self.reply(w, None)
            } else if self.find_reqs.contains_key(a.0) {
                if self.find_reqs[a.0].waits.len() >= MAX_WAITERS_PER_ALIAS {
                    self.reply(w, None)
                } else {
                    AliasView {
                        find_reqs: self.find_reqs.insert(
                            a.0,
                            FindView { waits: self.find_reqs[a.0].waits.push(w), ..self.find_reqs[a.0] },
                        ),
                        ..self
                    }
                }
            } else if self.local.contains_key(a.0) {
                self.reply(w, Some(AliasFoundLocation::Local))
            } else if self.find_reqs.len() >= MAX_PENDING_FIND_REQUESTS {
                self.reply(w, None)
            } else if self.cache.contains_key(a.0) {
                AliasView {
                    outs: self.outs + sorted_keys(self.cache[a.0]).map_values(
                        |p: u64| InternalOutput::Unicast(PeerId(p), AliasMessage::Check(a)),
                    ),
                    find_reqs: self.find_reqs.insert(
                        a.0,
                        FindView { state: FindStateView::CheckHint(now, self.cache[a.0]), waits: seq![w] },
                    ),
                    ..self
                }
            } else {
                AliasView {
                    find_reqs: self.find_reqs.insert(a.0, FindView { state: FindStateView::Scan(now), waits: seq![w] }),
                    ..self
                }.send(InternalOutput::Broadcast(AliasMessage::Scan(a)))
            },
            AliasControl::Shutdown => if self.shutting_down {
                self
            } else {
                AliasView {
                    shutting_down: true,
                    local: Map::empty(),
                    ..self.fail_all(sorted_keys(self.find_reqs.dom()))
                }.send(InternalOutput::Broadcast(AliasMessage::Shutdown))
            },
        }
    }
}

proof fn lemma_strip_one<W>(m: Map<u64, Set<u64>>, p: u64, d: Set<u64>, a: u64)
    requires
        hints_nonempty(m),
    ensures
        without_hint(without_peer_in(m, p, d), a, p) == without_peer_in(m, p, d.insert(a)),
        (!without_peer_in(m, p, d).contains_key(a) || !without_peer_in(m, p, d)[a].contains(p))
            ==> without_peer_in(m, p, d) == without_peer_in(m, p, d.insert(a)),
{
    let cur = without_peer_in(m, p, d);
    let next = without_peer_in(m, p, d.insert(a));
    if m.contains_key(a) {
        assert(!m[a].is_empty());
        if !m[a].contains(p) {
            assert(m[a].remove(p) =~= m[a]);
        }
        assert(m[a].remove(p).remove(p) =~= m[a].remove(p));
    }
    assert(without_hint(cur, a, p) =~= next);
    if !cur.contains_key(a) || !cur[a].contains(p) {
        assert(cur =~= next);
    }
}

/// Once every alias has been visited, the hints of `p` are all gone.
proof fn lemma_strip_all(m: Map<u64, Set<u64>>, p: u64, d: Set<u64>)
    requires
        m.dom().subset_of(d),
    ensures
        without_peer_in(m, p, d) == without_peer(m, p),
{
    assert(without_peer_in(m, p, d) =~= without_peer(m, p));
}

/// Ending finds changes only the finds and the answers owed.
proof fn lemma_fail_all_frame<W>(s: AliasView<W>, keys: Seq<u64>)
    ensures
        s.fail_all(keys) == (AliasView { find_reqs: s.fail_all(keys).find_reqs, replies: s.fail_all(keys).replies, ..s }),
    decreases keys.len(),
{
    if keys.len() > 0 {
        lemma_fail_all_frame(s, keys.drop_last());
    }
}

/// `s` once `peer`'s announcements and hints are gone.
pub open spec fn mid_view<W>(s: AliasView<W>, peer: u64) -> AliasView<W> {
    AliasView {
        lifecycle: s.lifecycle.remove_keys(Set::new(|k: (u64, u64)| k.1 == peer)),
        cache: without_peer(s.cache, peer),
        ..s
    }
}

/// A put into an LRU cache is `settled` against the plain insertion.
proof fn lemma_put_settles<K, V>(before: Map<K, V>, cap: nat, k: K, v: V, after: Map<K, V>)
    requires
        lru_put(before, cap, k, v, after),
    ensures
        settled(before, cap, Some(k), before.insert(k, v), after),
{
    if !(before.contains_key(k) || before.len() < cap) {
        let e = choose|e: K| before.contains_key(e) && e != k && after == before.remove(e).insert(k, v);
        assert(before.insert(k, v).remove(e) =~= before.remove(e).insert(k, v));
    }
}

impl<W> AliasServiceInternal<W> {
    pub open spec fn wf(&self) -> bool {
        self@.wf()
    }

    pub fn new() -> (s: AliasServiceInternal<W>)
        ensures
            s.wf(),
            s@.local.is_empty(),
            s@.local_generations.is_empty(),
            !s@.shutting_down,
            s@.cache.is_empty(),
            s@.cache_cap == LRU_CACHE_SIZE,
            s@.lifecycle.is_empty(),
            s@.lifecycle_cap == ALIAS_LIFECYCLE_CACHE_SIZE,
            s@.find_reqs.is_empty(),
            s@.outs.len() == 0,
            s@.replies.len() == 0,
    {
        let s = AliasServiceInternal {
            local: BTreeMap::new(),
            local_generations: BTreeMap::new(),
            shutting_down: false,
            cache: new_hint_cache(LRU_CACHE_SIZE),
            remote_lifecycle: new_lifecycle_cache(ALIAS_LIFECYCLE_CACHE_SIZE),
            find_reqs: BTreeMap::new(),
            outs: VecDeque::new(),
            replies: VecDeque::new(),
        };
        assert(s@.find_reqs =~= Map::empty());
        s
    }

    /// Each of `waits` is owed the answer `r`.
    fn answer_all(replies: &mut VecDeque<(W, Option<AliasFoundLocation>)>, waits: Vec<W>, r: Option<AliasFoundLocation>)
        ensures
            final(replies)@ == old(replies)@ + answered(waits@, r),
    {
        let mut waits = waits;
        let ghost w0 = waits@;
        while waits.len() > 0
            invariant
                waits@.len() <= w0.len(),
                waits@ == w0.skip(w0.len() - waits@.len()),
                replies@ == old(replies)@ + answered(w0.take(w0.len() - waits@.len()), r),
            decreases waits@.len(),
        {
            let ghost k = w0.len() - waits@.len();
            let w = waits.remove(0);
            replies.push_back((w, r));
            assert(w0.take(k + 1) =~= w0.take(k).push(w0[k]));
            assert(answered(w0.take(k + 1), r) =~= answered(w0.take(k), r).push((w0[k], r)));
            assert(waits@ =~= w0.skip(k + 1));
        }
        assert(w0.take(w0.len() as int) =~= w0);
    }

    /// Each of `waits` is owed the answer `r`, the last first.
    fn answer_all_reversed(
        replies: &mut VecDeque<(W, Option<AliasFoundLocation>)>,
        waits: Vec<W>,
        r: Option<AliasFoundLocation>,
    )
        ensures
            final(replies)@ == old(replies)@ + answered(waits@.reverse(), r),
    {
        let mut waits = waits;
        let ghost w0 = waits@;
        while waits.len() > 0
            invariant
                waits@.len() <= w0.len(),
                waits@ == w0.take(waits@.len() as int),
                replies@ == old(replies)@ + answered(w0.reverse().take(w0.len() - waits@.len()), r),
            decreases waits@.len(),
        {
            let ghost n = waits@.len();
            let ghost k = w0.len() - n;
            let w = waits.pop().unwrap();
            replies.push_back((w, r));
            assert(w0.reverse()[k] == w0[n - 1]);
            assert(w0.reverse().take(k + 1) =~= w0.reverse().take(k).push(w0[n - 1]));
            assert(answered(w0.reverse().take(k + 1), r) =~= answered(w0.reverse().take(k), r).push((w, r)));
            assert(waits@ =~= w0.take(n - 1));
        }
        assert(w0.reverse().take(w0.len() as int) =~= w0.reverse());
    }

    /// The finds under `keys` end with no answer, in order.
    fn fail_finds(&mut self, keys: &Vec<u64>)
        requires
            keys@.no_duplicates(),
            forall|j: int| 0 <= j < keys@.len() ==> old(self).find_reqs@.contains_key(#[trigger] keys@[j]),
        ensures
            final(self)@ == old(self)@.fail_all(keys@),
    {
        let mut i: usize = 0;
        while i < keys.len()
            invariant
                i <= keys@.len(),
                keys@.no_duplicates(),
                forall|j: int| i <= j < keys@.len() ==> self.find_reqs@.contains_key(#[trigger] keys@[j]),
                self@ == old(self)@.fail_all(keys@.take(i as int)),
            decreases keys@.len() - i,
        {
            let a = keys[i];
            let ghost before = self@;
            let req = self.find_reqs.remove(&a).unwrap();
            Self::answer_all(&mut self.replies, req.waits, None);
            assert(keys@.take(i + 1).drop_last() =~= keys@.take(i as int));
            assert(self@.find_reqs =~= before.find_reqs.remove(a));
            i = i + 1;
            assert forall|j: int| i <= j < keys@.len() implies self.find_reqs@.contains_key(#[trigger] keys@[j]) by {
                assert(keys@[j] != keys@[i - 1]);
            }
        }
        assert(keys@.take(keys@.len() as int) =~= keys@);
    }

    /// A control request from this node's application.
    pub fn on_control(&mut self, now: u64, control: AliasControl<W>)
        requires
            old(self).wf(),
            old(self)@.control_ok(control),
        ensures
            final(self).wf(),
            final(self)@ == old(self)@.after_control(now, control),
    {
        let ghost s0 = self@;
        match control {
            AliasControl::Register(alias) => {
                if self.shutting_down {
                    return ;
                }
                let a = alias.0;
                let was_active = self.local.contains_key(&a);
                let generation = if was_active {
                    match self.local_generations.get(&a) {
                        Some(g) => *g,
                        None => 0,
                    }
                } else {
                    self.increment_local_generation(a)
                };
                let count = match self.local.get(&a) {
                    Some(c) => *c + 1,
                    None => 1,
                };
                self.local.insert(a, count);
                let ghost counted = self@;
                if let Some(req) = self.find_reqs.remove(&a) {
                    Self::answer_all(&mut self.replies, req.waits, Some(AliasFoundLocation::Local));
                    assert(self@.find_reqs =~= counted.find_reqs.remove(a));
                } else {
                    assert(self@.find_reqs =~= counted.find_reqs);
                }
                self.outs.push_back(InternalOutput::Broadcast(AliasMessage::NotifySet(alias, generation)));
                assert forall|x: u64| #[trigger] self@.local.contains_key(x) implies self@.local[x] >= 1
                    && self@.local_generations.contains_key(x) by {
                    if x != a {
                        assert(s0.local.contains_key(x));
                    }
                }
                assert(self@.cache == s0.cache);
            },
            AliasControl::Unregister(alias) => {
                let a = alias.0;
                let count = match self.local.get(&a) {
                    Some(c) => *c,
                    None => {
                        return ;
                    },
                };
                assert(s0.local.contains_key(a));
                if count == 1 {
                    self.local.remove(&a);
                    let g = self.increment_local_generation(a);
                    self.outs.push_back(InternalOutput::Broadcast(AliasMessage::NotifyDel(alias, g)));
                } else {
                    self.local.insert(a, count - 1);
                }
                assert forall|x: u64| #[trigger] self@.local.contains_key(x) implies self@.local[x] >= 1
                    && self@.local_generations.contains_key(x) by {
                    assert(s0.local.contains_key(x));
                }
                assert(self@.cache == s0.cache);
            },
            AliasControl::Find(alias, w) => {
                let a = alias.0;
                if self.shutting_down {
                    self.replies.push_back((w, None));
                    assert(self@.cache == s0.cache);
                    assert(self@.local == s0.local);
                    assert(self@.local_generations == s0.local_generations);
                    return ;
                }
                if self.find_reqs.contains_key(&a) {
                    let mut req = self.find_reqs.remove(&a).unwrap();
                    if req.waits.len() >= MAX_WAITERS_PER_ALIAS {
                        self.find_reqs.insert(a, req);
                        assert(self@.find_reqs =~= s0.find_reqs);
                        self.replies.push_back((w, None));
                    } else {
                        req.waits.push(w);
                        self.find_reqs.insert(a, req);
                        assert(self@.find_reqs =~= s0.find_reqs.insert(
                            a,
                            FindView { waits: s0.find_reqs[a].waits.push(w), ..s0.find_reqs[a] },
                        ));
                    }
                    assert(self@.local == s0.local);
                    assert(self@.cache == s0.cache);
                    assert(self@.local_generations == s0.local_generations);
                    return ;
                }
                assert(!s0.find_reqs.contains_key(a));
                if self.local.contains_key(&a) {
                    self.replies.push_back((w, Some(AliasFoundLocation::Local)));
                    assert(self@.cache == s0.cache);
                    assert(self@.local == s0.local);
                    assert(self@.local_generations == s0.local_generations);
                    return ;
                }
                assert(s0.find_reqs.dom() =~= self.find_reqs@.dom());
                if self.find_reqs.len() >= MAX_PENDING_FIND_REQUESTS {
                    self.replies.push_back((w, None));
                    assert(self@.cache == s0.cache);
                    assert(self@.local == s0.local);
                    assert(self@.local_generations == s0.local_generations);
                    return ;
                }
                match hint_get(&mut self.cache, a) {
                    Some(slot) => {
                        let peers = set_in_order(&slot);
                        let ghost outs0 = self.outs@;
                        let ghost checks = sorted_keys(slot@).map_values(
                            |p: u64| InternalOutput::Unicast(PeerId(p), AliasMessage::Check(alias)),
                        );
                        let ghost mid = self@;
                        let mut i: usize = 0;
                        while i < peers.len()
                            invariant
                                self@ == (AliasView { outs: self@.outs, ..mid }),
                                i <= peers@.len(),
                                peers@ == sorted_keys(slot@),
                                checks == peers@.map_values(
                                    |p: u64| InternalOutput::Unicast(PeerId(p), AliasMessage::Check(alias)),
                                ),
                                self.outs@ == outs0 + checks.take(i as int),
                            decreases peers@.len() - i,
                        {
                            self.outs.push_back(InternalOutput::Unicast(PeerId(peers[i]), AliasMessage::Check(alias)));
                            assert(checks.take(i + 1) =~= checks.take(i as int).push(checks[i as int]));
                            i = i + 1;
                        }
                        assert(checks.take(peers@.len() as int) =~= checks);
                        let mut waits: Vec<W> = Vec::new();
                        waits.push(w);
                        self.find_reqs.insert(
                            a,
                            FindRequest { state: FindRequestState::CheckHint(now, slot), waits },
                        );
                        assert(waits@ =~= seq![w]);
                        assert(self@.find_reqs =~= s0.find_reqs.insert(
                            a,
                            FindView { state: FindStateView::CheckHint(now, s0.cache[a]), waits: seq![w] },
                        ));
                        assert(self@.local == s0.local);
                        assert(self@.cache == s0.cache);
                    },
                    None => {
                        self.outs.push_back(InternalOutput::Broadcast(AliasMessage::Scan(alias)));
                        let mut waits: Vec<W> = Vec::new();
                        waits.push(w);
                        self.find_reqs.insert(a, FindRequest { state: FindRequestState::Scan(now), waits });
                        assert(waits@ =~= seq![w]);
                        assert(self@.find_reqs =~= s0.find_reqs.insert(
                            a,
                            FindView { state: FindStateView::Scan(now), waits: seq![w] },
                        ));
                        assert(self@.local == s0.local);
                        assert(self@.cache == s0.cache);
                    },
                }
            },
            AliasControl::Shutdown => {
                if self.shutting_down {
                    return ;
                }
                let keys = keys_in_order(&self.find_reqs);
                proof {
                    assert(self.find_reqs@.dom() =~= s0.find_reqs.dom());
                    keys@.unique_seq_to_set();
                    assert forall|j: int| 0 <= j < keys@.len() implies self.find_reqs@.contains_key(
                        #[trigger] keys@[j],
                    ) by {
                        assert(keys@.to_set().contains(keys@[j]));
                    }
                }
                self.fail_finds(&keys);
                proof {
                    lemma_fail_all_frame(s0, keys@);
                }
                self.shutting_down = true;
                self.local.clear();
                self.outs.push_back(InternalOutput::Broadcast(AliasMessage::Shutdown));
                assert(self@.local =~= Map::empty());
                assert(self@.cache == s0.cache);
            },
        }
    }

    /// Records the announcement of `a` by `p` with generation `g` unless an
    /// announcement as new or newer was recorded; says whether it was.
    fn accept_remote_lifecycle(&mut self, a: u64, p: u64, g: u64, active: bool) -> (r: bool)
        ensures
            r == accepts(old(self)@.lifecycle, a, p, g),
            !r ==> final(self)@ == old(self)@,
            r ==> final(self)@ == (AliasView { lifecycle: final(self)@.lifecycle, ..old(self)@ }),
            r ==> settled(
                old(self)@.lifecycle,
                old(self)@.lifecycle_cap,
                Some((a, p)),
                old(self)@.lifecycle.insert((a, p), RemoteAliasState { generation: g, active }),
                final(self)@.lifecycle,
            ),
    {
        let key = (a, p);
        if let Some(state) = lifecycle_get(&mut self.remote_lifecycle, key) {
            if g <= state.generation {
                return false;
            }
        }
        let ghost before = lifecycle_entries(self.remote_lifecycle);
        let ghost cap = lifecycle_capacity(self.remote_lifecycle);
        let st = RemoteAliasState { generation: g, active };
        lifecycle_put(&mut self.remote_lifecycle, key, st);
        proof {
            lemma_put_settles(before, cap, key, st, lifecycle_entries(self.remote_lifecycle));
        }
        true
    }

    /// Adds `p` to the hints of `a`, unless they are full without it.
    fn insert_cache_hint(&mut self, a: u64, p: u64)
        requires
            hints_nonempty(old(self)@.cache),
        ensures
            final(self)@ == (AliasView { cache: final(self)@.cache, ..old(self)@ }),
            settled(
                old(self)@.cache,
                old(self)@.cache_cap,
                if hint_admitted(old(self)@.cache, a, p) {
                    Some(a)
                } else {
                    None
                },
                with_hint(old(self)@.cache, a, p),
                final(self)@.cache,
            ),
            hints_nonempty(final(self)@.cache),
    {
        let mut slot = match hint_get(&mut self.cache, a) {
            Some(slot) => slot,
            None => BTreeSet::new(),
        };
        assert(slot@ == hints_of(old(self)@.cache, a));
        if !slot.contains(&p) && slot.len() >= MAX_ALIAS_HINT_PEERS {
            return ;
        }
        slot.insert(p);
        let ghost before = hint_entries(self.cache);
        let ghost cap = hint_capacity(self.cache);
        hint_put(&mut self.cache, a, slot);
        proof {
            let after = hint_entries(self.cache);
            lemma_put_settles(before, cap, a, slot@, after);
            let intended = before.insert(a, slot@);
            assert(slot@.contains(p));
            assert forall|x: u64| #[trigger] after.contains_key(x) implies !after[x].is_empty() by {
                assert(intended.contains_key(x));
                if x == a {
                    assert(after[x].contains(p));
                } else {
                    assert(before.contains_key(x));
                }
            }
        }
    }

    /// Drops `p` from the hints of `a`, and the entry of `a` when no hint is
    /// left.
    fn remove_cache_hint(&mut self, a: u64, p: u64)
        requires
            hints_nonempty(old(self)@.cache),
        ensures
            final(self)@ == (AliasView { cache: without_hint(old(self)@.cache, a, p), ..old(self)@ }),
            hints_nonempty(final(self)@.cache),
    {
        if let Some(mut slot) = hint_get(&mut self.cache, a) {
            slot.remove(&p);
            if slot.is_empty() {
                hint_pop(&mut self.cache, a);
            } else {
                hint_put(&mut self.cache, a, slot);
            }
        }
    }

    /// `peer` is gone; see `AliasView::after_disconnect`.
    pub fn on_peer_disconnected(&mut self, now: u64, peer: PeerId)
        requires
            old(self).wf(),
        ensures
            final(self).wf(),
            final(self)@ == old(self)@.after_disconnect(now, peer.0),
            final(self)@ == (AliasView {
                find_reqs: final(self)@.find_reqs,
                outs: final(self)@.outs,
                cache: final(self)@.cache,
                lifecycle: final(self)@.lifecycle,
                ..old(self)@
            }),
    {
        let p = peer.0;
        let ghost s0 = self@;
        // The announcements of `peer`, and the hints they gave.
        let keys = lifecycle_keys(&self.remote_lifecycle);
        let ghost mut done: Set<u64> = Set::empty();
        let mut i: usize = 0;
        while i < keys.len()
            invariant
                i <= keys@.len(),
                keys@.to_set() == s0.lifecycle.dom(),
                self@ == (AliasView { cache: self@.cache, lifecycle: self@.lifecycle, ..s0 }),
                self@.lifecycle == s0.lifecycle.remove_keys(
                    Set::new(|k: (u64, u64)| k.1 == p && keys@.take(i as int).contains(k)),
                ),
                self@.cache == without_peer_in(s0.cache, p, done),
                hints_nonempty(self@.cache),
                hints_nonempty(s0.cache),
            decreases keys@.len() - i,
        {
            let key = keys[i];
            let ghost lc0 = self@.lifecycle;
            if key.1 == p {
                lifecycle_pop(&mut self.remote_lifecycle, key);
                self.remove_cache_hint(key.0, p);
                proof {
                    lemma_strip_one::<W>(s0.cache, p, done, key.0);
                    done = done.insert(key.0);
                }
            }
            proof {
                let t0 = keys@.take(i as int);
                let t1 = keys@.take(i + 1);
                assert(t1 =~= t0.push(key));
                assert forall|k: (u64, u64)| #[trigger] t1.contains(k) <==> (t0.contains(k) || k == key) by {
                    if t1.contains(k) && k != key {
                        let j = choose|j: int| 0 <= j < t1.len() && t1[j] == k;
                        assert(t0[j] == k);
                    }
                    if t0.contains(k) {
                        let j = choose|j: int| 0 <= j < t0.len() && t0[j] == k;
                        assert(t1[j] == k);
                    }
                    if k == key {
                        assert(t1[i as int] == k);
                    }
                }
                assert(self@.lifecycle =~= s0.lifecycle.remove_keys(
                    Set::new(|k: (u64, u64)| k.1 == p && t1.contains(k)),
                ));
            }
            i = i + 1;
        }
        proof {
            assert(keys@.take(keys@.len() as int) =~= keys@);
            assert forall|k: (u64, u64)| s0.lifecycle.contains_key(k) implies keys@.contains(k) by {
                assert(keys@.to_set().contains(k));
            }
            assert(self@.lifecycle =~= mid_view(s0, p).lifecycle);
        }
        // The hints of `peer` learned otherwise.
        let aliases = hint_keys(&self.cache);
        let ghost c1 = self@.cache;
        let ghost done1 = done;
        let mut j: usize = 0;
        while j < aliases.len()
            invariant
                j <= aliases@.len(),
                aliases@.to_set() == c1.dom(),
                c1 == without_peer_in(s0.cache, p, done1),
                done1.subset_of(done),
                forall|x: int| 0 <= x < j ==> done.contains(#[trigger] aliases@[x]),
                self@ == (AliasView { cache: self@.cache, ..mid_view(s0, p) }),
                self@.cache == without_peer_in(s0.cache, p, done),
                hints_nonempty(self@.cache),
                hints_nonempty(s0.cache),
            decreases aliases@.len() - j,
        {
            let a = aliases[j];
            proof {
                lemma_strip_one::<W>(s0.cache, p, done, a);
            }
            if let Some(slot) = hint_peek(&self.cache, a) {
                if slot.contains(&p) {
                    self.remove_cache_hint(a, p);
                }
            }
            proof {
                done = done.insert(a);
            }
            j = j + 1;
        }
        proof {
            assert forall|a: u64| s0.cache.contains_key(a) implies done.contains(a) by {
                if c1.contains_key(a) {
                    assert(aliases@.to_set().contains(a));
                    let x = choose|x: int| 0 <= x < aliases@.len() && aliases@[x] == a;
                    assert(done.contains(aliases@[x]));
                } else {
                    assert(done1.contains(a));
                }
            }
            lemma_strip_all(s0.cache, p, done);
        }
        // Finds that were waiting only on `peer` scan instead.
        let ghost mid = self@;
        assert(mid == mid_view(s0, p));
        let reqs = keys_in_order(&self.find_reqs);
        assert(self.find_reqs@.dom() =~= s0.find_reqs.dom());
        let mut k: usize = 0;
        while k < reqs.len()
            invariant
                k <= reqs@.len(),
                reqs@ == sorted_keys(s0.find_reqs.dom()),
                crate::ordered::lists_in_order(reqs@, s0.find_reqs.dom()),
                self@.find_reqs.dom() == s0.find_reqs.dom(),
                self@ == (AliasView { find_reqs: self@.find_reqs, outs: self@.outs, ..mid }),
                self@ == mid.drop_checked_all(reqs@.take(k as int), p, now),
            decreases reqs@.len() - k,
        {
            let a = reqs[k];
            let ghost before = self@;
            assert(reqs@.to_set().contains(a));
            let req = self.find_reqs.remove(&a).unwrap();
            let FindRequest { state, waits } = req;
            match state {
                FindRequestState::CheckHint(t, hs) => {
                    let mut hs = hs;
                    hs.remove(&p);
                    if hs.is_empty() {
                        self.find_reqs.insert(a, FindRequest { state: FindRequestState::Scan(now), waits });
                        self.outs.push_back(InternalOutput::Broadcast(AliasMessage::Scan(AliasId(a))));
                    } else {
                        self.find_reqs.insert(a, FindRequest { state: FindRequestState::CheckHint(t, hs), waits });
                    }
                },
                FindRequestState::Scan(t) => {
                    self.find_reqs.insert(a, FindRequest { state: FindRequestState::Scan(t), waits });
                },
            }
            assert(self@.find_reqs =~= before.drop_checked(a, p, now).find_reqs);
            assert(reqs@.take(k + 1).drop_last() =~= reqs@.take(k as int));
            k = k + 1;
        }
        assert(reqs@.take(reqs@.len() as int) =~= reqs@);
    }

    /// A clock tick at `now`; see `AliasView::after_tick`.
    pub fn on_tick(&mut self, now: u64)
        requires
            old(self).wf(),
        ensures
            final(self).wf(),
            final(self)@ == old(self)@.after_tick(now),
    {
        let ghost s0 = self@;
        let keys = keys_in_order(&self.find_reqs);
        assert(self.find_reqs@.dom() =~= s0.find_reqs.dom());
        let mut i: usize = 0;
        while i < keys.len()
            invariant
                i <= keys@.len(),
                keys@ == sorted_keys(s0.find_reqs.dom()),
                crate::ordered::lists_in_order(keys@, s0.find_reqs.dom()),
                forall|j: int| i <= j < keys@.len() ==> self@.find_reqs.contains_key(#[trigger] keys@[j]),
                self@ == (AliasView { find_reqs: self@.find_reqs, outs: self@.outs, replies: self@.replies, ..s0 }),
                self@ == s0.expire_all(keys@.take(i as int), now),
            decreases keys@.len() - i,
        {
            let a = keys[i];
            let ghost before = self@;
            let req = self.find_reqs.remove(&a).unwrap();
            let FindRequest { state, waits } = req;
            match state {
                FindRequestState::CheckHint(t, hs) => {
                    if deadline_expired(t, HINT_TIMEOUT_MS, now) {
                        self.outs.push_back(InternalOutput::Broadcast(AliasMessage::Scan(AliasId(a))));
                        self.find_reqs.insert(a, FindRequest { state: FindRequestState::Scan(now), waits });
                    } else {
                        self.find_reqs.insert(a, FindRequest { state: FindRequestState::CheckHint(t, hs), waits });
                    }
                    assert(self@.find_reqs =~= before.expire(a, now).find_reqs);
                },
                FindRequestState::Scan(t) => {
                    if deadline_expired(t, SCAN_TIMEOUT_MS, now) {
                        Self::answer_all_reversed(&mut self.replies, waits, None);
                        assert(self@.find_reqs =~= before.find_reqs.remove(a));
                    } else {
                        self.find_reqs.insert(a, FindRequest { state: FindRequestState::Scan(t), waits });
                        assert(self@.find_reqs =~= before.find_reqs);
                    }
                },
            }
            assert(keys@.take(i + 1).drop_last() =~= keys@.take(i as int));
            i = i + 1;
            assert forall|j: int| i <= j < keys@.len() implies self@.find_reqs.contains_key(#[trigger] keys@[j]) by {
                assert(keys@[j] != a);
                assert(before.find_reqs.contains_key(keys@[j]));
            }
        }
        assert(keys@.take(keys@.len() as int) =~= keys@);
    }

    /// A message from `from`; see `AliasView::after_msg`.  The two caches
    /// may each drop their least recently used entry to make room.
    pub fn on_msg(&mut self, now: u64, from: PeerId, msg: AliasMessage)
        requires
            old(self).wf(),
        ensures
            final(self).wf(),
            old(self)@.moves_to(
                old(self)@.after_msg(now, from.0, msg),
                old(self)@.msg_hint_put(from.0, msg),
                old(self)@.msg_lifecycle_put(from.0, msg),
                final(self)@,
            ),
    {
        let ghost s0 = self@;
        let p = from.0;
        match msg {
            AliasMessage::NotifySet(alias, g) => {
                if self.accept_remote_lifecycle(alias.0, p, g, true) {
                    self.insert_cache_hint(alias.0, p);
                }
            },
            AliasMessage::NotifyDel(alias, g) => {
                if self.accept_remote_lifecycle(alias.0, p, g, false) {
                    self.remove_cache_hint(alias.0, p);
                }
            },
            AliasMessage::Check(alias) => {
                if self.local.contains_key(&alias.0) {
                    self.outs.push_back(InternalOutput::Unicast(from, AliasMessage::Found(alias)));
                } else {
                    self.outs.push_back(InternalOutput::Unicast(from, AliasMessage::NotFound(alias)));
                }
            },
            AliasMessage::Scan(alias) => {
                if self.local.contains_key(&alias.0) {
                    assert(s0.local.contains_key(alias.0));
                    let generation = match self.local_generations.get(&alias.0) {
                        Some(g) => *g,
                        None => 0,
                    };
                    self.outs.push_back(InternalOutput::Unicast(from, AliasMessage::NotifySet(alias, generation)));
                    self.outs.push_back(InternalOutput::Unicast(from, AliasMessage::Found(alias)));
                }
            },
            AliasMessage::Found(alias) => {
                let a = alias.0;
                let mut found: Option<AliasFoundLocation> = None;
                let mut scanning = false;
                match self.find_reqs.get(&a) {
                    Some(req) => match &req.state {
                        FindRequestState::CheckHint(_, hs) => {
                            if hs.contains(&p) {
                                found = Some(AliasFoundLocation::Hint(from));
                            }
                        },
                        FindRequestState::Scan(_) => {
                            scanning = true;
                        },
                    },
                    None => {},
                }
                if scanning {
                    if let Some(state) = lifecycle_get(&mut self.remote_lifecycle, (a, p)) {
                        if state.active {
                            found = Some(AliasFoundLocation::Scan(from));
                        }
                    }
                }
                assert(found == s0.found_location(a, p));
                if let Some(location) = found {
                    self.insert_cache_hint(a, p);
                    let req = self.find_reqs.remove(&a).unwrap();
                    Self::answer_all(&mut self.replies, req.waits, Some(location));
                    assert(self@.find_reqs =~= s0.find_reqs.remove(a));
                }
            },
            AliasMessage::NotFound(alias) => {
                let a = alias.0;
                if self.find_reqs.contains_key(&a) {
                    let req = self.find_reqs.remove(&a).unwrap();
                    let FindRequest { state, waits } = req;
                    match state {
                        FindRequestState::CheckHint(t, hs) => {
                            let ghost hs0 = hs@;
                            let mut hs = hs;
                            if hs.remove(&p) {
                                if hs.is_empty() {
                                    self.find_reqs.insert(a, FindRequest { state: FindRequestState::Scan(now), waits });
                                    assert(self@.find_reqs =~= s0.find_reqs.insert(
                                        a,
                                        FindView { state: FindStateView::Scan(now), waits: s0.find_reqs[a].waits },
                                    ));
                                    self.remove_cache_hint(a, p);
                                    self.outs.push_back(InternalOutput::Broadcast(AliasMessage::Scan(alias)));
                                } else {
                                    self.find_reqs.insert(
                                        a,
                                        FindRequest { state: FindRequestState::CheckHint(t, hs), waits },
                                    );
                                    assert(self@.find_reqs =~= s0.find_reqs.insert(
                                        a,
                                        FindView {
                                            state: FindStateView::CheckHint(t, hs0.remove(p)),
                                            waits: s0.find_reqs[a].waits,
                                        },
                                    ));
                                    self.remove_cache_hint(a, p);
                                }
                            } else {
                                assert(hs@ =~= hs0);
                                self.find_reqs.insert(
                                    a,
                                    FindRequest { state: FindRequestState::CheckHint(t, hs), waits },
                                );
                                assert(self@.find_reqs =~= s0.find_reqs);
                            }
                        },
                        FindRequestState::Scan(t) => {
                            self.find_reqs.insert(a, FindRequest { state: FindRequestState::Scan(t), waits });
                            assert(self@.find_reqs =~= s0.find_reqs);
                        },
                    }
                }
            },
            AliasMessage::Shutdown => {
                self.on_peer_disconnected(now, from);
            },
        }
        assert(self@.local == s0.local);
        assert(self@.local_generations == s0.local_generations);
    }

    /// The next message to send.
    pub fn pop_output(&mut self) -> (o: Option<InternalOutput>)
        ensures
            old(self)@.outs.len() == 0 ==> o is None && final(self)@ == old(self)@,
            old(self)@.outs.len() > 0 ==> o == Some(old(self)@.outs[0]) && final(self)@ == (AliasView {
                outs: old(self)@.outs.drop_first(),
                ..old(self)@
            }),
    {
        self.outs.pop_front()
    }

    /// The next answer owed to a waiting finder.
    pub fn pop_reply(&mut self) -> (r: Option<(W, Option<AliasFoundLocation>)>)
        ensures
            old(self)@.replies.len() == 0 ==> r is None && final(self)@ == old(self)@,
            old(self)@.replies.len() > 0 ==> r == Some(old(self)@.replies[0]) && final(self)@ == (AliasView {
                replies: old(self)@.replies.drop_first(),
                ..old(self)@
            }),
    {
        self.replies.pop_front()
    }

    fn increment_local_generation(&mut self, a: u64) -> (g: u64)
        ensures
            g == next_generation(old(self)@.local_generations, a),
            final(self)@ == (AliasView { local_generations: old(self)@.local_generations.insert(a, g), ..old(self)@ }),
    {
        let current = match self.local_generations.get(&a) {
            Some(g) => *g,
            None => 0,
        };
        let g = current.saturating_add(1);
        self.local_generations.insert(a, g);
        g
    }
}

} // verus!
