use rivulet::buffer::notify::{connected, evict_closed, notifier, notify, notify_all, Signal};

#[test]
fn signal_reaches_the_receiver() {
    let (sender, mut receiver) = notifier();
    assert!(receiver.try_recv().is_err());
    assert!(notify(&sender));
    assert_eq!(receiver.try_recv(), Ok(()));
    assert!(receiver.try_recv().is_err());
}

#[test]
fn signals_coalesce() {
    let (sender, mut receiver) = notifier();
    assert!(notify(&sender));
    assert!(notify(&sender));
    assert!(notify(&sender));
    assert_eq!(receiver.try_recv(), Ok(()));
    assert!(receiver.try_recv().is_err());
}

#[test]
fn signal_finds_dropped_receiver() {
    let (sender, receiver) = notifier();
    drop(receiver);
    assert!(!notify(&sender));
}

#[test]
fn only_a_closed_signal_disconnects() {
    assert!(connected(Signal::Sent));
    assert!(connected(Signal::Coalesced));
    assert!(!connected(Signal::Closed));
}

#[test]
fn evicts_exactly_the_closed() {
    let mut items = vec![10, 11, 12, 13, 14];
    let signals = vec![
        Signal::Closed,
        Signal::Sent,
        Signal::Closed,
        Signal::Coalesced,
        Signal::Closed,
    ];
    assert!(evict_closed(&mut items, &signals));
    assert_eq!(items, vec![11, 13]);
}

#[test]
fn evicting_everything_leaves_nothing() {
    let mut items = vec![1, 2];
    assert!(!evict_closed(&mut items, &vec![Signal::Closed, Signal::Closed]));
    assert!(items.is_empty());
    let mut none: Vec<u8> = Vec::new();
    assert!(!evict_closed(&mut none, &Vec::new()));
}

#[test]
fn notify_all_evicts_senders_without_receiver() {
    let (first, mut first_receiver) = notifier();
    let (second, second_receiver) = notifier();
    let (third, mut third_receiver) = notifier();
    assert!(notify(&third));
    drop(second_receiver);
    let mut senders = vec![first, second, third];
    assert!(notify_all(&mut senders));
    assert_eq!(senders.len(), 2);
    assert_eq!(first_receiver.try_recv(), Ok(()));
    assert_eq!(third_receiver.try_recv(), Ok(()));
    assert!(third_receiver.try_recv().is_err());
    drop(first_receiver);
    drop(third_receiver);
    assert!(!notify_all(&mut senders));
    assert!(senders.is_empty());
}

#[test]
fn notifier_holds_a_single_signal() {
    let (sender, receiver) = notifier();
    assert_eq!(sender.max_capacity(), 1);
    assert_eq!(receiver.max_capacity(), 1);
    assert_eq!(sender.capacity(), 1);
    assert!(notify(&sender));
    assert_eq!(sender.capacity(), 0);
}
