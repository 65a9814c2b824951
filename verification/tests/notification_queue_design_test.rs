use ailets::notification_queue_design::{NotificationQueue, QueueConfig, QueueError};

#[test]
fn example_basic_wait() {
    let mut queue = NotificationQueue::new(QueueConfig::default());

    // Register a handle
    let handle = queue.register_handle();

    // A client waits
    let waiter = queue.register_waiter(&handle).unwrap();

    // Notify: the waiter is woken and receives the argument
    let targets = queue.notify(&handle).unwrap();
    assert_eq!(targets.waiters, vec![waiter]);
    assert_eq!(NotificationQueue::wait_result(Some(42)), Ok(42));

    // Explicitly unregister handle when done
    assert!(queue.unregister_handle(&handle).is_empty());
}

#[test]
fn example_subscription() {
    let mut queue = NotificationQueue::new(QueueConfig::default());
    let handle = queue.register_handle();

    let sub = queue.subscribe(&handle).unwrap();

    // Each notification reaches the subscriber, which stays subscribed.
    for _ in 0..3 {
        let targets = queue.notify(&handle).unwrap();
        assert_eq!(targets.subscribers, vec![sub]);
        assert!(targets.waiters.is_empty());
    }
    assert_eq!(queue.stats().total_notifications, 3);

    queue.unregister_handle(&handle);
}

#[test]
fn max_subscribers_is_enforced() {
    let config = QueueConfig { max_subscribers_per_handle: 2, max_waiters_per_handle: 1, callback_timeout_ms: 100 };
    let mut queue = NotificationQueue::new(config);
    let handle = queue.register_handle();
    assert!(queue.subscribe(&handle).is_ok());
    assert!(queue.subscribe(&handle).is_ok());
    assert_eq!(queue.subscribe(&handle), Err(QueueError::MaxSubscribers));
    assert!(queue.register_waiter(&handle).is_ok());
    assert_eq!(queue.register_waiter(&handle), Err(QueueError::MaxWaiters));
}

#[test]
fn unregistered_handle_errors() {
    let mut queue = NotificationQueue::new(QueueConfig::default());
    let handle = queue.register_handle();
    let w = queue.register_waiter(&handle).unwrap();
    assert_eq!(queue.unregister_handle(&handle), vec![w]);
    assert_eq!(queue.notify(&handle).err(), Some(QueueError::HandleNotRegistered(handle.id())));
    assert_eq!(queue.subscribe(&handle), Err(QueueError::HandleNotRegistered(handle.id())));
    assert_eq!(queue.unsubscribe(77), Err(QueueError::SubscriptionNotFound(77)));
    assert_eq!(NotificationQueue::wait_result(Some(-1)), Err(QueueError::HandleUnlisted));
    assert_eq!(NotificationQueue::wait_result(None), Err(QueueError::HandleUnlisted));
}

#[test]
fn unsubscribe_removes_subscriber() {
    let mut queue = NotificationQueue::new(QueueConfig::default());
    let handle = queue.register_handle();
    let s = queue.subscribe(&handle).unwrap();
    assert_eq!(queue.unsubscribe(s), Ok(()));
    assert!(queue.notify(&handle).unwrap().subscribers.is_empty());
    let stats = queue.stats();
    assert_eq!(stats.total_handles, 1);
    assert_eq!(stats.total_subscribers, 0);
}

#[test]
fn error_messages() {
    assert_eq!(QueueError::HandleNotRegistered(5).message(), "Handle not registered: 5");
    assert_eq!(QueueError::HandleUnlisted.message(), "Handle was unlisted while waiting");
    assert_eq!(QueueError::MaxSubscribers.message(), "Maximum subscribers reached for handle");
    assert_eq!(QueueError::MaxWaiters.message(), "Maximum waiters reached for handle");
    assert_eq!(QueueError::Timeout.message(), "Wait timeout");
    assert_eq!(QueueError::SubscriptionNotFound(8).message(), "Subscription not found: 8");
}

#[test]
fn handles_are_distinct() {
    let mut queue = NotificationQueue::new(QueueConfig::default());
    let a = queue.register_handle();
    let b = queue.register_handle();
    assert_ne!(a.id(), b.id());
}
