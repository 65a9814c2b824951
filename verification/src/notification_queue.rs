//! Notification queue: the bookkeeping that coordinates workers that notify
//! handles and clients that wait for them or subscribe to them.
//!
//! A client waits only on a whitelisted handle; otherwise its wait ends at once
//! (this avoids waiting forever on a handle that is already gone). Checking the
//! condition and registering the waiter happen under one lock, in one call of
//! `wait_register`. A notification wakes every waiter of the handle once and
//! is broadcast to the handle's subscribers; unlisting a handle notifies with
//! -1 and drops its subscription channel.
//!
//! The queue decides who is woken; the caller delivers the wakeups (one-shot
//! senders for waiters, a broadcast sender per subscribed handle).

use std::collections::HashMap;

use vstd::prelude::*;
use vstd::string::StringExecFns;

verus! {

broadcast use vstd::std_specs::hash::group_hash_axioms;

/// Handle of the notification queue: an integer id.
#[derive(Debug, Clone, Copy, PartialEq, Eq, Structural, Hash)]
pub struct Handle {
    id: u64,
}

impl Handle {
    /// The id, for use in specifications.
    pub closed spec fn spec_id(self) -> u64 {
        self.id
    }

    /// A handle with the given id.
    pub fn new(id: u64) -> (h: Self)
        ensures
            h.spec_id() == id,
    {
        Self { id }
    }

    /// The id of this handle.
    pub fn id(&self) -> (r: u64)
        ensures
            r == self.spec_id(),
    {
        self.id
    }
}

/// The waiters of `h` in a waiting map, in registration order.
pub open spec fn waiters_in(w: Map<u64, Seq<u64>>, h: Handle) -> Seq<u64> {
    if w.contains_key(h.spec_id()) {
        w[h.spec_id()]
    } else {
        Seq::empty()
    }
}

/// What to deliver for one notification of a handle.
#[derive(Debug)]
pub struct NotifyPlan {
    /// The handle notified.
    pub handle: Handle,
    /// The argument of the notification.
    pub arg: i32,
    /// The waiters to wake, in registration order.
    pub waiters: Vec<u64>,
    /// Whether the handle's subscription channel exists and gets the notification.
    pub broadcast: bool,
    /// Whether the subscription channel was dropped (after this notification).
    pub channel_dropped: bool,
}

/// Bookkeeping of the notification queue, keyed by handle id.
pub struct NotificationQueueArc {
    whitelist: HashMap<u64, String>,
    waiting_clients: HashMap<u64, Vec<u64>>,
    broadcast_channels: HashMap<u64, usize>,
    next_waiter: u64,
}

impl NotificationQueueArc {
    /// The whitelisted handle ids with their debug hints.
    pub closed spec fn listed(self) -> Map<u64, Seq<char>> {
        self.whitelist@.map_values(|s: String| s@)
    }

    /// The waiting clients: for each handle id, its waiter ids in registration order.
    pub closed spec fn waiting(self) -> Map<u64, Seq<u64>> {
        self.waiting_clients@.map_values(|v: Vec<u64>| v@)
    }

    /// The subscription channels: handle id and capacity.
    pub closed spec fn channels(self) -> Map<u64, usize> {
        self.broadcast_channels@
    }

    /// The id the next waiter receives.
    pub closed spec fn next_waiter_id(self) -> u64 {
        self.next_waiter
    }

    /// Whether `h` is whitelisted.
    pub open spec fn is_listed(self, h: Handle) -> bool {
        self.listed().contains_key(h.spec_id())
    }

    /// Whether `h` has a subscription channel.
    pub open spec fn has_channel(self, h: Handle) -> bool {
        self.channels().contains_key(h.spec_id())
    }

    /// The waiters of `h`, in registration order.
    pub open spec fn waiters(self, h: Handle) -> Seq<u64> {
        waiters_in(self.waiting(), h)
    }

    /// An empty queue.
    pub fn new() -> (q: Self)
        ensures
            q.listed() == Map::<u64, Seq<char>>::empty(),
            q.waiting() == Map::<u64, Seq<u64>>::empty(),
            q.channels() == Map::<u64, usize>::empty(),
            q.next_waiter_id() == 0,
    {
        let q = Self {
            whitelist: HashMap::new(),
            waiting_clients: HashMap::new(),
            broadcast_channels: HashMap::new(),
            next_waiter: 0,
        };
        assert(q.listed() =~= Map::<u64, Seq<char>>::empty());
        assert(q.waiting() =~= Map::<u64, Seq<u64>>::empty());
        q
    }

    /// Register a handle in the whitelist (replacing its hint if it is already
    /// there). Returns whether it was already whitelisted.
    pub fn whitelist(&mut self, handle: Handle, debug_hint: &str) -> (was_listed: bool)
        ensures
            was_listed == old(self).is_listed(handle),
            final(self).listed() == old(self).listed().insert(handle.spec_id(), debug_hint@),
            final(self).waiting() == old(self).waiting(),
            final(self).channels() == old(self).channels(),
            final(self).next_waiter_id() == old(self).next_waiter_id(),
    {
        let prev = self.whitelist.insert(handle.id(), String::from_str(debug_hint));
        assert(self.listed() =~= old(self).listed().insert(handle.spec_id(), debug_hint@));
        prev.is_some()
    }

    /// Decide a wait on `handle` under the lock: when the handle is whitelisted
    /// the client is registered and gets its waiter id; otherwise the wait ends at
    /// once (`None`).
    pub fn wait_register(&mut self, handle: Handle, debug_hint: &str) -> (r: Option<u64>)
        ensures
            final(self).listed() == old(self).listed(),
            final(self).channels() == old(self).channels(),
            old(self).is_listed(handle) ==> r == Some(old(self).next_waiter_id()) && final(self).waiting()
                == old(self).waiting().insert(handle.spec_id(), old(self).waiters(handle).push(old(self).next_waiter_id()))
                && final(self).next_waiter_id() == (if old(self).next_waiter_id() == u64::MAX {
                0
            } else {
                (old(self).next_waiter_id() + 1) as u64
            }),
            !old(self).is_listed(handle) ==> r is None && final(self).waiting() == old(self).waiting()
                && final(self).next_waiter_id() == old(self).next_waiter_id(),
    {
        let hid = handle.id();
        if !self.whitelist.contains_key(&hid) {
            return None;
        }
        let id = self.next_waiter;
        self.next_waiter = if id == u64::MAX { 0 } else { id + 1 };
        let mut v = match self.waiting_clients.remove(&hid) {
            Some(v) => v,
            None => Vec::new(),
        };
        assert(v@ == old(self).waiters(handle));
        v.push(id);
        self.waiting_clients.insert(hid, v);
        assert(self.waiting() =~= old(self).waiting().insert(hid, old(self).waiters(handle).push(id)));
        Some(id)
    }

    fn take_waiters(&mut self, handle: Handle) -> (r: Vec<u64>)
        ensures
            final(self).listed() == old(self).listed(),
            final(self).channels() == old(self).channels(),
            final(self).next_waiter_id() == old(self).next_waiter_id(),
            final(self).waiting() == old(self).waiting().remove(handle.spec_id()),
            r@ == old(self).waiters(handle),
    {
        let r = match self.waiting_clients.remove(&handle.id()) {
            Some(v) => v,
            None => Vec::new(),
        };
        assert(self.waiting() =~= old(self).waiting().remove(handle.spec_id()));
        r
    }

    fn notify_and_optionally_delete(&mut self, handle: Handle, arg: i32, delete_subscribed: bool) -> (plan: NotifyPlan)
        ensures
            final(self).listed() == old(self).listed(),
            final(self).waiting() == old(self).waiting().remove(handle.spec_id()),
            final(self).next_waiter_id() == old(self).next_waiter_id(),
            plan.handle == handle,
            plan.arg == arg,
            plan.waiters@ == old(self).waiters(handle),
            plan.broadcast == old(self).has_channel(handle),
            plan.channel_dropped == (delete_subscribed && old(self).has_channel(handle)),
            delete_subscribed ==> final(self).channels() == old(self).channels().remove(handle.spec_id()),
            !delete_subscribed ==> final(self).channels() == old(self).channels(),
    {
        let waiters = self.take_waiters(handle);
        let hid = handle.id();
        let broadcast = self.broadcast_channels.contains_key(&hid);
        let mut dropped = false;
        if delete_subscribed {
            let removed = self.broadcast_channels.remove(&hid);
            dropped = removed.is_some();
        }
        NotifyPlan { handle, arg, waiters, broadcast, channel_dropped: dropped }
    }

    /// Notify waiting clients and subscribers for a handle: every waiter of the
    /// handle is woken (and leaves the waiting list); the subscribers, if any,
    /// get the notification.
    pub fn notify(&mut self, handle: Handle, arg: i32) -> (plan: NotifyPlan)
        ensures
            final(self).listed() == old(self).listed(),
            final(self).channels() == old(self).channels(),
            final(self).waiting() == old(self).waiting().remove(handle.spec_id()),
            final(self).next_waiter_id() == old(self).next_waiter_id(),
            plan.handle == handle,
            plan.arg == arg,
            plan.waiters@ == old(self).waiters(handle),
            plan.broadcast == old(self).has_channel(handle),
            !plan.channel_dropped,
    {
        self.notify_and_optionally_delete(handle, arg, false)
    }

    /// Unregister a handle from the whitelist, wake its waiters with -1 and drop
    /// its subscription channel. Returns the plan and whether the handle was listed.
    pub fn unlist(&mut self, handle: Handle) -> (r: (NotifyPlan, bool))
        ensures
            r.1 == old(self).is_listed(handle),
            final(self).listed() == old(self).listed().remove(handle.spec_id()),
            final(self).waiting() == old(self).waiting().remove(handle.spec_id()),
            final(self).channels() == old(self).channels().remove(handle.spec_id()),
            final(self).next_waiter_id() == old(self).next_waiter_id(),
            r.0.handle == handle,
            r.0.arg == -1,
            r.0.waiters@ == old(self).waiters(handle),
            r.0.broadcast == old(self).has_channel(handle),
            r.0.channel_dropped == old(self).has_channel(handle),
    {
        let removed = self.whitelist.remove(&handle.id());
        let was = removed.is_some();
        assert(self.listed() =~= old(self).listed().remove(handle.spec_id()));
        let plan = self.notify_and_optionally_delete(handle, -1, true);
        (plan, was)
    }

    /// Subscribe to the handle: the handle's channel is created with
    /// `channel_capacity` if it has none. Returns the capacity of the channel to
    /// subscribe to, or `None` if the handle is not whitelisted.
    pub fn subscribe(&mut self, handle: Handle, channel_capacity: usize, debug_hint: &str) -> (r: Option<usize>)
        ensures
            final(self).listed() == old(self).listed(),
            final(self).waiting() == old(self).waiting(),
            final(self).next_waiter_id() == old(self).next_waiter_id(),
            !old(self).is_listed(handle) ==> r is None && final(self).channels() == old(self).channels(),
            old(self).is_listed(handle) && old(self).has_channel(handle) ==> r == Some(
                old(self).channels()[handle.spec_id()],
            ) && final(self).channels() == old(self).channels(),
            old(self).is_listed(handle) && !old(self).has_channel(handle) ==> r == Some(channel_capacity)
                && final(self).channels() == old(self).channels().insert(handle.spec_id(), channel_capacity),
    {
        let hid = handle.id();
        if !self.whitelist.contains_key(&hid) {
            return None;
        }
        match self.broadcast_channels.get(&hid) {
            Some(c) => Some(*c),
            None => {
                self.broadcast_channels.insert(hid, channel_capacity);
                Some(channel_capacity)
            },
        }
    }
}

impl Default for NotificationQueueArc {
    fn default() -> (q: Self)
        ensures
            q.listed() == Map::<u64, Seq<char>>::empty(),
            q.waiting() == Map::<u64, Seq<u64>>::empty(),
            q.channels() == Map::<u64, usize>::empty(),
            q.next_waiter_id() == 0,
    {
        Self::new()
    }
}

/// Law: a client that registers a wait on a whitelisted handle is woken by the
/// next notification of that handle: its waiter id is among those the
/// notification wakes, and after it the handle has no waiter left.
pub proof fn lemma_registered_waiter_is_woken(w: Map<u64, Seq<u64>>, h: Handle, id: u64)
    ensures
        waiters_in(w.insert(h.spec_id(), waiters_in(w, h).push(id)), h).contains(id),
        waiters_in(w.insert(h.spec_id(), waiters_in(w, h).push(id)).remove(h.spec_id()), h).len() == 0,
{
    let ws = waiters_in(w.insert(h.spec_id(), waiters_in(w, h).push(id)), h);
    assert(ws[ws.len() - 1] == id);
}

} // verus!
