use ailets::notification_queue::{Handle, NotificationQueueArc};

#[test]
fn test_basic_wait_notify() {
    let mut queue = NotificationQueueArc::new();
    let handle = Handle::new(1);

    queue.whitelist(handle, "test");

    let waiter = queue.wait_register(handle, "waiter").expect("listed handle registers the waiter");
    let plan = queue.notify(handle, 42);
    assert_eq!(plan.arg, 42);
    assert_eq!(plan.waiters, vec![waiter]);

    let (plan, was_listed) = queue.unlist(handle);
    assert!(was_listed);
    assert!(plan.waiters.is_empty());
}

#[test]
fn test_subscription() {
    let mut queue = NotificationQueueArc::new();
    let handle = Handle::new(2);

    queue.whitelist(handle, "test");

    let capacity = queue.subscribe(handle, 10, "test_subscriber").unwrap();
    assert_eq!(capacity, 10);

    let p1 = queue.notify(handle, 1);
    let p2 = queue.notify(handle, 2);
    // Subscribers receive the handle itself.
    assert!(p1.broadcast && p2.broadcast);
    assert_eq!(p1.handle, handle);
    assert_eq!(p2.handle, handle);

    let (plan, _) = queue.unlist(handle);
    assert!(plan.channel_dropped);
}

#[test]
fn test_unlist_notifies_waiters() {
    let mut queue = NotificationQueueArc::new();
    let handle = Handle::new(3);

    queue.whitelist(handle, "test");
    let waiter = queue.wait_register(handle, "waiter").unwrap();

    let (plan, was_listed) = queue.unlist(handle);
    assert!(was_listed);
    assert_eq!(plan.arg, -1);
    assert_eq!(plan.waiters, vec![waiter]);
}

#[test]
fn wait_on_unlisted_handle_ends_at_once() {
    let mut queue = NotificationQueueArc::new();
    assert_eq!(queue.wait_register(Handle::new(9), "w"), None);
    assert_eq!(queue.subscribe(Handle::new(9), 4, "s"), None);
}

#[test]
fn notify_wakes_only_that_handles_waiters() {
    let mut queue = NotificationQueueArc::new();
    let a = Handle::new(1);
    let b = Handle::new(2);
    assert!(!queue.whitelist(a, "a"));
    assert!(queue.whitelist(a, "a again"));
    queue.whitelist(b, "b");
    let wa = queue.wait_register(a, "wa").unwrap();
    let wb = queue.wait_register(b, "wb").unwrap();
    assert_ne!(wa, wb);
    let plan = queue.notify(a, 5);
    assert_eq!(plan.waiters, vec![wa]);
    assert!(!plan.broadcast);
    // The woken waiter left; b's waiter stays.
    assert!(queue.notify(a, 6).waiters.is_empty());
    assert_eq!(queue.notify(b, 7).waiters, vec![wb]);
}

#[test]
fn second_subscription_reuses_channel() {
    let mut queue = NotificationQueueArc::new();
    let h = Handle::new(4);
    queue.whitelist(h, "h");
    assert_eq!(queue.subscribe(h, 3, "s1"), Some(3));
    assert!(queue.subscribe(h, 8, "s2").is_some());
}
