//! Notification queue with explicit handle registration and per-handle limits.
//!
//! Handles are registered and unregistered explicitly. Waiters are one-shot:
//! a notification wakes every waiter of the handle once. Subscribers persist
//! until they unsubscribe. Limits on waiters and subscribers per handle keep a
//! buggy client from exhausting resources.
//!
//! The queue decides who gets what; the caller delivers (one-shot senders for
//! waiters, bounded channels for subscribers) and counts the deliveries.

use std::collections::HashMap;

use rustc_hash::FxBuildHasher;
use vstd::prelude::*;
use vstd::string::StringExecFns;

use crate::text::decimal_nat;

verus! {

/// Configuration for the notification queue
#[derive(Debug, Clone, Copy)]
pub struct QueueConfig {
    /// Maximum subscribers per handle (prevents resource exhaustion)
    pub max_subscribers_per_handle: usize,
    /// Maximum waiting clients per handle
    pub max_waiters_per_handle: usize,
    /// Timeout for client callbacks, in milliseconds
    pub callback_timeout_ms: u64,
}

impl Default for QueueConfig {
    fn default() -> (c: Self)
        ensures
            c.max_subscribers_per_handle == 1024,
            c.max_waiters_per_handle == 1024,
            c.callback_timeout_ms == 100,
    {
        Self { max_subscribers_per_handle: 1024, max_waiters_per_handle: 1024, callback_timeout_ms: 100 }
    }
}

/// A handle represents a notification channel.
#[derive(Debug, Clone, Copy, PartialEq, Eq, Structural)]
pub struct Handle {
    id: u64,
}

impl Handle {
    /// The id, for use in specifications.
    pub closed spec fn spec_id(self) -> u64 {
        self.id
    }

    /// The id of this handle.
    pub fn id(&self) -> (r: u64)
        ensures
            r == self.spec_id(),
    {
        self.id
    }
}

/// Errors of the notification queue
#[derive(Debug, Clone, Copy, PartialEq, Eq, Structural)]
pub enum QueueError {
    HandleNotRegistered(u64),
    HandleUnlisted,
    MaxSubscribers,
    MaxWaiters,
    Timeout,
    SubscriptionNotFound(u64),
}

/// The display text of an error.
pub open spec fn queue_error_text(e: QueueError) -> Seq<char> {
    match e {
        QueueError::HandleNotRegistered(id) => "Handle not registered: "@ + decimal_nat(id as nat),
        QueueError::HandleUnlisted => "Handle was unlisted while waiting"@,
        QueueError::MaxSubscribers => "Maximum subscribers reached for handle"@,
        QueueError::MaxWaiters => "Maximum waiters reached for handle"@,
        QueueError::Timeout => "Wait timeout"@,
        QueueError::SubscriptionNotFound(id) => "Subscription not found: "@ + decimal_nat(id as nat),
    }
}

impl QueueError {
    /// The display text of this error.
    pub fn message(&self) -> (r: String)
        ensures
            r@ == queue_error_text(*self),
    {
        proof {
            reveal_strlit("Handle not registered: ");
            reveal_strlit("Subscription not found: ");
        }
        match self {
            QueueError::HandleNotRegistered(id) => {
                let mut s = String::from_str("Handle not registered: ");
                crate::text::push_decimal_u64(&mut s, *id);
                s
            },
            QueueError::HandleUnlisted => String::from_str("Handle was unlisted while waiting"),
            QueueError::MaxSubscribers => String::from_str("Maximum subscribers reached for handle"),
            QueueError::MaxWaiters => String::from_str("Maximum waiters reached for handle"),
            QueueError::Timeout => String::from_str("Wait timeout"),
            QueueError::SubscriptionNotFound(id) => {
                let mut s = String::from_str("Subscription not found: ");
                crate::text::push_decimal_u64(&mut s, *id);
                s
            },
        }
    }
}

/// Statistics for debugging and monitoring
#[derive(Debug, Clone, Copy)]
pub struct QueueStats {
    pub total_handles: usize,
    pub total_waiters: usize,
    pub total_subscribers: usize,
    pub total_notifications: u64,
}

/// Waiters and subscribers of one handle.
#[derive(Debug)]
pub struct HandleEntry {
    waiters: Vec<u64>,
    subscribers: Vec<u64>,
}

/// Whom one notification reaches.
#[derive(Debug)]
pub struct NotifyTargets {
    /// The waiters woken (they leave the handle).
    pub waiters: Vec<u64>,
    /// The subscribers that get the notification (they stay).
    pub subscribers: Vec<u64>,
}

/// The hasher of the queue's map of handles (rustc_hash's `FxHashMap`).
#[verifier::external_type_specification]
#[verifier::external_body]
pub struct ExFxBuildHasher(FxBuildHasher);

/// The model of one handle's entry: waiter ids and subscriber ids.
pub closed spec fn entry_view(e: HandleEntry) -> (Seq<u64>, Seq<u64>) {
    (e.waiters@, e.subscribers@)
}

/// The queue's map of handles (an `FxHashMap` keyed by handle id).
pub type FxHandleMap = HashMap<u64, HandleEntry, FxBuildHasher>;

/// What a map of handles holds: for each handle id, its waiter ids and subscriber ids.
pub uninterp spec fn fx_entries(m: HashMap<u64, HandleEntry, FxBuildHasher>) -> Map<u64, (Seq<u64>, Seq<u64>)>;

/// `HashMap::default` with rustc_hash's `FxBuildHasher` (an empty `FxHashMap`).
/// Claimed: the map holds nothing.
#[verifier::external_body]
fn fx_new() -> (r: FxHandleMap)
    ensures
        fx_entries(r) == HandlesModel::empty(),
{
    HashMap::default()
}

/// `HashMap::get` of an `FxHashMap`. Claimed, as std documents it: the entry of `id` if
/// the map holds one, else `None`.
#[verifier::external_body]
fn fx_get(m: &HashMap<u64, HandleEntry, FxBuildHasher>, id: u64) -> (r: Option<&HandleEntry>)
    ensures
        match r {
            Some(e) => fx_entries(*m).contains_key(id) && entry_view(*e) == fx_entries(*m)[id],
            None => !fx_entries(*m).contains_key(id),
        },
{
    m.get(&id)
}

/// `HashMap::insert` of an `FxHashMap` (the entry it replaces is dropped). Claimed, as
/// std documents it: afterwards `id` maps to `e`, and nothing else changes.
#[verifier::external_body]
fn fx_insert(m: &mut HashMap<u64, HandleEntry, FxBuildHasher>, id: u64, e: HandleEntry)
    ensures
        fx_entries(*final(m)) == fx_entries(*old(m)).insert(id, entry_view(e)),
{
    m.insert(id, e);
}

/// `HashMap::remove` of an `FxHashMap`. Claimed, as std documents it: the entry of `id`
/// is taken out and returned, if there was one; nothing else changes.
#[verifier::external_body]
fn fx_remove(m: &mut HashMap<u64, HandleEntry, FxBuildHasher>, id: u64) -> (r: Option<HandleEntry>)
    ensures
        fx_entries(*final(m)) == fx_entries(*old(m)).remove(id),
        match r {
            Some(e) => fx_entries(*old(m)).contains_key(id) && entry_view(e) == fx_entries(*old(m))[id],
            None => !fx_entries(*old(m)).contains_key(id),
        },
{
    m.remove(&id)
}

/// `HashMap::len` of an `FxHashMap`. Claimed: the number of handle ids it holds.
#[verifier::external_body]
fn fx_len(m: &HashMap<u64, HandleEntry, FxBuildHasher>) -> (r: usize)
    ensures
        r == fx_entries(*m).dom().len(),
{
    m.len()
}

/// `HashMap::keys` of an `FxHashMap`, collected. Claimed: each handle id the map holds,
/// once; the order is the map's own and is not stated.
#[verifier::external_body]
fn fx_keys(m: &HashMap<u64, HandleEntry, FxBuildHasher>) -> (r: Vec<u64>)
    ensures
        r@.no_duplicates(),
        forall|k: u64| r@.contains(k) <==> fx_entries(*m).contains_key(k),
{
    m.keys().copied().collect()
}

/// The model of the handles: for each handle id, its waiter ids and subscriber ids.
pub type HandlesModel = Map<u64, (Seq<u64>, Seq<u64>)>;

/// Total waiters of the handles `ks`, in that order.
pub open spec fn sum_waiters(hs: HandlesModel, ks: Seq<u64>) -> nat
    decreases ks.len(),
{
    if ks.len() == 0 {
        0
    } else {
        sum_waiters(hs, ks.drop_last()) + hs[ks.last()].0.len()
    }
}

/// Total subscribers of the handles `ks`, in that order.
pub open spec fn sum_subscribers(hs: HandlesModel, ks: Seq<u64>) -> nat
    decreases ks.len(),
{
    if ks.len() == 0 {
        0
    } else {
        sum_subscribers(hs, ks.drop_last()) + hs[ks.last()].1.len()
    }
}

/// Whether `ks` lists each handle id of `hs` once.
pub open spec fn lists_handles(hs: HandlesModel, ks: Seq<u64>) -> bool {
    &&& ks.no_duplicates()
    &&& forall|k: u64| ks.contains(k) <==> hs.contains_key(k)
}

/// The bookkeeping of the queue.
pub struct NotificationQueue {
    config: QueueConfig,
    next_handle_id: u64,
    next_subscription_id: u64,
    next_waiter_id: u64,
    handles: HashMap<u64, HandleEntry, FxBuildHasher>,
    total_notifications: u64,
}

impl NotificationQueue {
    /// The handles: for each handle id, its waiter ids and subscriber ids.
    pub closed spec fn handles(self) -> HandlesModel {
        fx_entries(self.handles)
    }

    /// The configuration.
    pub closed spec fn spec_config(self) -> QueueConfig {
        self.config
    }

    /// The id the next registered handle receives.
    pub closed spec fn next_handle(self) -> u64 {
        self.next_handle_id
    }

    /// The id the next subscription receives.
    pub closed spec fn next_subscription(self) -> u64 {
        self.next_subscription_id
    }

    /// The id the next waiter receives.
    pub closed spec fn next_waiter(self) -> u64 {
        self.next_waiter_id
    }

    /// The number of notifications delivered so far.
    pub closed spec fn notifications(self) -> u64 {
        self.total_notifications
    }

    /// A new queue; handle, subscription and waiter ids start from 1.
    pub fn new(config: QueueConfig) -> (q: Self)
        ensures
            q.spec_config() == config,
            q.handles() == HandlesModel::empty(),
            q.next_handle() == 1,
            q.next_subscription() == 1,
            q.next_waiter() == 1,
            q.notifications() == 0,
    {
        Self {
            config,
            next_handle_id: 1,
            next_subscription_id: 1,
            next_waiter_id: 1,
            handles: fx_new(),
            total_notifications: 0,
        }
    }

    /// Register a new handle with no waiters and no subscribers, under the next id.
    /// Ids are counted with wrap-around; should the counter come back to the id of a
    /// handle still registered, that handle's entry is replaced by the new, empty one.
    pub fn register_handle(&mut self) -> (h: Handle)
        ensures
            h.spec_id() == old(self).next_handle(),
            final(self).handles() == old(self).handles().insert(h.spec_id(), (Seq::empty(), Seq::empty())),
            final(self).next_handle() == crate::notification_queue_design::wrapping_inc(old(self).next_handle()),
            final(self).next_subscription() == old(self).next_subscription(),
            final(self).next_waiter() == old(self).next_waiter(),
            final(self).notifications() == old(self).notifications(),
            final(self).spec_config() == old(self).spec_config(),
    {
        let id = self.next_handle_id;
        self.next_handle_id = id.wrapping_add(1);
        let entry = HandleEntry { waiters: Vec::new(), subscribers: Vec::new() };
        proof {
            assert(entry_view(entry) == (Seq::<u64>::empty(), Seq::<u64>::empty()));
        }
        fx_insert(&mut self.handles, id, entry);
        Handle { id }
    }

    /// Unregister a handle: it is removed with its subscribers, and its waiters
    /// are returned, to be woken with -1 (unlisted). Nothing happens for an
    /// unknown handle.
    pub fn unregister_handle(&mut self, handle: &Handle) -> (waiters: Vec<u64>)
        ensures
            old(self).handles().contains_key(handle.spec_id()) ==> waiters@ == old(self).handles()[handle.spec_id()].0,
            !old(self).handles().contains_key(handle.spec_id()) ==> waiters@.len() == 0,
            final(self).handles() == old(self).handles().remove(handle.spec_id()),
            final(self).next_handle() == old(self).next_handle(),
            final(self).next_subscription() == old(self).next_subscription(),
            final(self).next_waiter() == old(self).next_waiter(),
            final(self).notifications() == old(self).notifications(),
            final(self).spec_config() == old(self).spec_config(),
    {
        match fx_remove(&mut self.handles, handle.id) {
            Some(entry) => entry.waiters,
            None => Vec::new(),
        }
    }

    /// Register a waiter on a handle (the first step of a wait).
    ///
    /// Errors: `HandleNotRegistered` for an unknown handle, `MaxWaiters` when the
    /// handle already has the maximum number of waiters.
    pub fn register_waiter(&mut self, handle: &Handle) -> (r: Result<u64, QueueError>)
        ensures
            final(self).next_handle() == old(self).next_handle(),
            final(self).next_subscription() == old(self).next_subscription(),
            final(self).notifications() == old(self).notifications(),
            final(self).spec_config() == old(self).spec_config(),
            !old(self).handles().contains_key(handle.spec_id()) ==> r == Err::<u64, QueueError>(
                QueueError::HandleNotRegistered(handle.spec_id()),
            ) && final(self).handles() == old(self).handles() && final(self).next_waiter() == old(self).next_waiter(),
            old(self).handles().contains_key(handle.spec_id()) ==> ({
                let e = old(self).handles()[handle.spec_id()];
                if e.0.len() >= old(self).spec_config().max_waiters_per_handle {
                    r == Err::<u64, QueueError>(QueueError::MaxWaiters) && final(self).handles() == old(self).handles()
                        && final(self).next_waiter() == old(self).next_waiter()
                } else {
                    &&& r == Ok::<u64, QueueError>(old(self).next_waiter())
                    &&& final(self).handles() == old(self).handles().insert(
                        handle.spec_id(),
                        (e.0.push(old(self).next_waiter()), e.1),
                    )
                    &&& final(self).next_waiter() == wrapping_inc(old(self).next_waiter())
                }
            }),
    {
        let hid = handle.id;
        match fx_get(&self.handles, hid) {
            None => {
                return Err(QueueError::HandleNotRegistered(hid));
            },
            Some(e) => {
                if e.waiters.len() >= self.config.max_waiters_per_handle {
                    return Err(QueueError::MaxWaiters);
                }
            },
        }
        let id = self.next_waiter_id;
        self.next_waiter_id = id.wrapping_add(1);
        match fx_remove(&mut self.handles, hid) {
            Some(mut entry) => {
                entry.waiters.push(id);
                fx_insert(&mut self.handles, hid, entry);
                proof {
                    assert(self.handles() =~= old(self).handles().insert(
                        hid,
                        (old(self).handles()[hid].0.push(id), old(self).handles()[hid].1),
                    ));
                }
                Ok(id)
            },
            None => Err(QueueError::HandleNotRegistered(hid)),
        }
    }

    /// The result of a wait from what its one-shot channel delivered: -1 or
    /// nothing means the handle was unlisted.
    pub fn wait_result(received: Option<i32>) -> (r: Result<i32, QueueError>)
        ensures
            r == (match received {
                Some(arg) => if arg == -1 {
                    Err::<i32, QueueError>(QueueError::HandleUnlisted)
                } else {
                    Ok(arg)
                },
                None => Err(QueueError::HandleUnlisted),
            }),
    {
        match received {
            Some(arg) => if arg == -1 {
                Err(QueueError::HandleUnlisted)
            } else {
                Ok(arg)
            },
            None => Err(QueueError::HandleUnlisted),
        }
    }

    /// Notify all waiters and subscribers on this handle: the waiters are taken
    /// (one-shot), the subscribers stay. Counts the notification.
    ///
    /// Errors: `HandleNotRegistered` for an unknown handle.
    pub fn notify(&mut self, handle: &Handle) -> (r: Result<NotifyTargets, QueueError>)
        ensures
            final(self).next_handle() == old(self).next_handle(),
            final(self).next_subscription() == old(self).next_subscription(),
            final(self).next_waiter() == old(self).next_waiter(),
            final(self).spec_config() == old(self).spec_config(),
            !old(self).handles().contains_key(handle.spec_id()) ==> r == Err::<NotifyTargets, QueueError>(
                QueueError::HandleNotRegistered(handle.spec_id()),
            ) && final(self).handles() == old(self).handles() && final(self).notifications() == old(self).notifications(),
            old(self).handles().contains_key(handle.spec_id()) ==> ({
                let e = old(self).handles()[handle.spec_id()];
                &&& r matches Ok(t) && t.waiters@ == e.0 && t.subscribers@ == e.1
                &&& final(self).handles() == old(self).handles().insert(handle.spec_id(), (Seq::empty(), e.1))
                &&& final(self).notifications() == wrapping_inc(old(self).notifications())
            }),
    {
        let hid = handle.id;
        match fx_remove(&mut self.handles, hid) {
            None => Err(QueueError::HandleNotRegistered(hid)),
            Some(entry) => {
                let subscribers = entry.subscribers.clone();
                let kept = HandleEntry { waiters: Vec::new(), subscribers: entry.subscribers };
                proof {
                    assert(subscribers@ == entry.subscribers@);
                }
                fx_insert(&mut self.handles, hid, kept);
                self.total_notifications = self.total_notifications.wrapping_add(1);
                proof {
                    assert(self.handles() =~= old(self).handles().insert(hid, (Seq::empty(), old(self).handles()[hid].1)));
                }
                Ok(NotifyTargets { waiters: entry.waiters, subscribers })
            },
        }
    }

    /// Subscribe to a handle; returns the subscription id.
    ///
    /// Errors: `HandleNotRegistered` for an unknown handle, `MaxSubscribers` when
    /// the handle already has the maximum number of subscribers.
    pub fn subscribe(&mut self, handle: &Handle) -> (r: Result<u64, QueueError>)
        ensures
            final(self).next_handle() == old(self).next_handle(),
            final(self).next_waiter() == old(self).next_waiter(),
            final(self).notifications() == old(self).notifications(),
            final(self).spec_config() == old(self).spec_config(),
            final(self).next_subscription() == wrapping_inc(old(self).next_subscription()),
            !old(self).handles().contains_key(handle.spec_id()) ==> r == Err::<u64, QueueError>(
                QueueError::HandleNotRegistered(handle.spec_id()),
            ) && final(self).handles() == old(self).handles(),
            old(self).handles().contains_key(handle.spec_id()) ==> ({
                let e = old(self).handles()[handle.spec_id()];
                if e.1.len() >= old(self).spec_config().max_subscribers_per_handle {
                    r == Err::<u64, QueueError>(QueueError::MaxSubscribers) && final(self).handles() == old(self).handles()
                } else {
                    &&& r == Ok::<u64, QueueError>(old(self).next_subscription())
                    &&& final(self).handles() == old(self).handles().insert(
                        handle.spec_id(),
                        (e.0, e.1.push(old(self).next_subscription())),
                    )
                }
            }),
    {
        let sid = self.next_subscription_id;
        self.next_subscription_id = sid.wrapping_add(1);
        let hid = handle.id;
        match fx_get(&self.handles, hid) {
            None => {
                return Err(QueueError::HandleNotRegistered(hid));
            },
            Some(e) => {
                if e.subscribers.len() >= self.config.max_subscribers_per_handle {
                    return Err(QueueError::MaxSubscribers);
                }
            },
        }
        match fx_remove(&mut self.handles, hid) {
            Some(mut entry) => {
                entry.subscribers.push(sid);
                fx_insert(&mut self.handles, hid, entry);
                proof {
                    assert(self.handles() =~= old(self).handles().insert(
                        hid,
                        (old(self).handles()[hid].0, old(self).handles()[hid].1.push(sid)),
                    ));
                }
                Ok(sid)
            },
            None => Err(QueueError::HandleNotRegistered(hid)),
        }
    }

    /// Remove a subscription from a handle that has it (the first one met in the
    /// map's order, at the first position it holds it).
    ///
    /// Errors: `SubscriptionNotFound` when no handle has it.
    pub fn unsubscribe(&mut self, subscription_id: u64) -> (r: Result<(), QueueError>)
        ensures
            final(self).next_handle() == old(self).next_handle(),
            final(self).next_subscription() == old(self).next_subscription(),
            final(self).next_waiter() == old(self).next_waiter(),
            final(self).notifications() == old(self).notifications(),
            final(self).spec_config() == old(self).spec_config(),
            (forall|id: u64| #[trigger] old(self).handles().contains_key(id) ==> !old(self).handles()[id].1.contains(
                subscription_id,
            )) ==> r == Err::<(), QueueError>(QueueError::SubscriptionNotFound(subscription_id)) && final(self).handles()
                == old(self).handles(),
            (exists|id: u64| #[trigger] old(self).handles().contains_key(id) && old(self).handles()[id].1.contains(
                subscription_id,
            )) ==> r is Ok,
            r is Ok ==> exists|id: u64, p: int|
                #![trigger old(self).handles()[id].1[p]]
                old(self).handles().contains_key(id) && 0 <= p < old(self).handles()[id].1.len()
                    && old(self).handles()[id].1[p] == subscription_id && (forall|q: int|
                    0 <= q < p ==> old(self).handles()[id].1[q] != subscription_id) && final(self).handles()
                    == old(self).handles().insert(id, (old(self).handles()[id].0, old(self).handles()[id].1.remove(p))),
    {
        let keys = fx_keys(&self.handles);
        let mut i: usize = 0;
        while i < keys.len()
            invariant
                self.handles() == old(self).handles(),
                self.next_handle_id == old(self).next_handle(),
                self.next_subscription_id == old(self).next_subscription(),
                self.next_waiter_id == old(self).next_waiter(),
                self.total_notifications == old(self).notifications(),
                self.config == old(self).spec_config(),
                forall|k: u64| keys@.contains(k) <==> old(self).handles().contains_key(k),
                i <= keys@.len(),
                forall|k: int| 0 <= k < i ==> !old(self).handles()[#[trigger] keys@[k]].1.contains(subscription_id),
            decreases keys@.len() - i,
        {
            let hid = keys[i];
            assert(keys@.contains(hid));
            let found: Option<usize> = match fx_get(&self.handles, hid) {
                None => None,
                Some(e) => {
                    let mut p: usize = 0;
                    let mut at: Option<usize> = None;
                    while p < e.subscribers.len()
                        invariant_except_break
                            p <= e.subscribers@.len(),
                            at is None,
                            forall|q: int| 0 <= q < p ==> e.subscribers@[q] != subscription_id,
                        ensures
                            at matches Some(q) ==> q < e.subscribers@.len() && e.subscribers@[q as int] == subscription_id
                                && forall|x: int| 0 <= x < q ==> e.subscribers@[x] != subscription_id,
                            at is None ==> forall|q: int| 0 <= q < e.subscribers@.len() ==> e.subscribers@[q] != subscription_id,
                        decreases e.subscribers@.len() - p,
                    {
                        if e.subscribers[p] == subscription_id {
                            at = Some(p);
                            break;
                        }
                        p = p + 1;
                    }
                    proof {
                        if at is None {
                            assert(!e.subscribers@.contains(subscription_id)) by {
                                if e.subscribers@.contains(subscription_id) {
                                    let q = choose|q: int| 0 <= q < e.subscribers@.len() && e.subscribers@[q] == subscription_id;
                                    assert(e.subscribers@[q] != subscription_id);
                                }
                            }
                        }
                    }
                    at
                },
            };
            match found {
                Some(p) => {
                    let ghost e0 = old(self).handles()[hid];
                    match fx_remove(&mut self.handles, hid) {
                        Some(mut entry) => {
                            entry.subscribers.remove(p);
                            fx_insert(&mut self.handles, hid, entry);
                            proof {
                                assert(self.handles() =~= old(self).handles().insert(hid, (e0.0, e0.1.remove(p as int))));
                            }
                            return Ok(());
                        },
                        None => {
                            return Err(QueueError::SubscriptionNotFound(subscription_id));
                        },
                    }
                },
                None => {},
            }
            i = i + 1;
        }
        proof {
            assert forall|id: u64| #[trigger] old(self).handles().contains_key(id) implies !old(self).handles()[id].1.contains(
                subscription_id,
            ) by {
                assert(keys@.contains(id));
                let k = choose|k: int| 0 <= k < keys@.len() && keys@[k] == id;
                assert(!old(self).handles()[keys@[k]].1.contains(subscription_id));
            }
        }
        Err(QueueError::SubscriptionNotFound(subscription_id))
    }

    /// Statistics: number of handles, of waiters and of subscribers, and of
    /// notifications so far.
    pub fn stats(&self) -> (s: QueueStats)
        requires
            forall|ks: Seq<u64>| #[trigger] lists_handles(self.handles(), ks) ==> sum_waiters(self.handles(), ks)
                <= usize::MAX && sum_subscribers(self.handles(), ks) <= usize::MAX,
        ensures
            s.total_handles == self.handles().dom().len(),
            exists|ks: Seq<u64>|
                #[trigger] lists_handles(self.handles(), ks) && s.total_waiters == sum_waiters(self.handles(), ks)
                    && s.total_subscribers == sum_subscribers(self.handles(), ks),
            s.total_notifications == self.notifications(),
    {
        let keys = fx_keys(&self.handles);
        let n = fx_len(&self.handles);
        let ghost hs = self.handles();
        assert(lists_handles(hs, keys@));
        let mut w: usize = 0;
        let mut sub: usize = 0;
        let mut i: usize = 0;
        while i < keys.len()
            invariant
                hs == self.handles(),
                lists_handles(hs, keys@),
                sum_waiters(hs, keys@) <= usize::MAX,
                sum_subscribers(hs, keys@) <= usize::MAX,
                i <= keys@.len(),
                w == sum_waiters(hs, keys@.take(i as int)),
                sub == sum_subscribers(hs, keys@.take(i as int)),
            decreases keys@.len() - i,
        {
            assert(keys@.take(i + 1).drop_last() =~= keys@.take(i as int));
            proof {
                lemma_sums_prefix(hs, keys@, i + 1);
            }
            let hid = keys[i];
            assert(keys@.contains(hid));
            match fx_get(&self.handles, hid) {
                Some(e) => {
                    w = w + e.waiters.len();
                    sub = sub + e.subscribers.len();
                },
                None => {},
            }
            i = i + 1;
        }
        assert(keys@.take(i as int) =~= keys@);
        QueueStats { total_handles: n, total_waiters: w, total_subscribers: sub, total_notifications: self.total_notifications }
    }
}

/// The counter after one increment that wraps around.
pub open spec fn wrapping_inc(n: u64) -> u64 {
    if n == u64::MAX { 0 } else { (n + 1) as u64 }
}

/// The sums over a prefix of the handles are at most the sums over all of them.
pub proof fn lemma_sums_prefix(hs: HandlesModel, ks: Seq<u64>, k: int)
    requires
        0 <= k <= ks.len(),
    ensures
        sum_waiters(hs, ks.take(k)) <= sum_waiters(hs, ks),
        sum_subscribers(hs, ks.take(k)) <= sum_subscribers(hs, ks),
    decreases ks.len(),
{
    if k < ks.len() {
        let k2 = ks.drop_last();
        assert(k2.take(k) =~= ks.take(k));
        lemma_sums_prefix(hs, k2, k);
    } else {
        assert(ks.take(k) =~= ks);
    }
}

} // verus!
