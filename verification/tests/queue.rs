use argon::changes::{Change, ChangeSet};
use argon::queue::Queue;
use argon::snapshot::Ref;

fn removal(id: usize) -> ChangeSet {
    let mut set = ChangeSet::new();
    set.push(Change::Removed { id: Ref(id) });
    set
}

fn ids(backlog: &Vec<ChangeSet>) -> Vec<usize> {
    backlog
        .iter()
        .map(|set| match &set.changes[0] {
            Change::Removed { id } => id.0,
            _ => panic!("not a removal"),
        })
        .collect()
}

#[test]
fn subscribe_then_drain_gives_what_was_pushed_in_order() {
    let mut queue = Queue::new();
    queue.subscribe(1, 100);
    queue.push(&removal(10), None);
    queue.push(&removal(11), None);
    queue.push(&removal(12), None);
    let drained = queue.drain(1, 200).unwrap();
    assert_eq!(ids(&drained), vec![10, 11, 12]);
    let again = queue.drain(1, 300).unwrap();
    assert!(again.is_empty());
}

#[test]
fn drain_of_an_unknown_client_is_none() {
    let mut queue = Queue::new();
    assert!(queue.drain(9, 0).is_none());
    queue.subscribe(1, 0);
    assert!(queue.drain(9, 0).is_none());
    assert!(!queue.is_subscribed(9));
    assert!(queue.is_subscribed(1));
}

#[test]
fn unsubscribe_says_whether_the_client_was_subscribed() {
    let mut queue = Queue::new();
    queue.subscribe(1, 0);
    queue.subscribe(2, 0);
    assert!(queue.unsubscribe(&1));
    assert!(!queue.unsubscribe(&1));
    assert!(!queue.unsubscribe(&3));
    assert!(!queue.is_subscribed(1));
    assert!(queue.is_subscribed(2));
    queue.push(&removal(5), None);
    assert!(queue.drain(1, 1).is_none());
    assert_eq!(ids(&queue.drain(2, 1).unwrap()), vec![5]);
}

#[test]
fn subscribing_again_resets_the_backlog() {
    let mut queue = Queue::new();
    queue.subscribe(1, 0);
    queue.push(&removal(1), None);
    queue.push(&removal(2), None);
    queue.subscribe(1, 5);
    queue.push(&removal(3), None);
    assert_eq!(ids(&queue.drain(1, 6).unwrap()), vec![3]);
}

#[test]
fn a_subscriber_sees_only_what_was_pushed_since_it_subscribed() {
    let mut queue = Queue::new();
    queue.subscribe(1, 0);
    queue.push(&removal(1), None);
    queue.subscribe(2, 1);
    queue.push(&removal(2), None);
    queue.push(&removal(3), None);
    assert_eq!(ids(&queue.drain(1, 2).unwrap()), vec![1, 2, 3]);
    assert_eq!(ids(&queue.drain(2, 2).unwrap()), vec![2, 3]);
    queue.push(&removal(4), None);
    assert_eq!(ids(&queue.drain(1, 3).unwrap()), vec![4]);
    assert_eq!(ids(&queue.drain(2, 3).unwrap()), vec![4]);
}

#[test]
fn the_author_of_a_change_set_does_not_get_it() {
    let mut queue = Queue::new();
    queue.subscribe(1, 0);
    queue.subscribe(2, 0);
    queue.push(&removal(1), Some(1));
    queue.push(&removal(2), Some(7));
    queue.push(&removal(3), Some(2));
    assert_eq!(ids(&queue.drain(1, 1).unwrap()), vec![2, 3]);
    assert_eq!(ids(&queue.drain(2, 1).unwrap()), vec![1, 2]);
}

#[test]
fn pushing_without_subscribers_keeps_nothing() {
    let mut queue = Queue::new();
    queue.push(&removal(1), None);
    queue.subscribe(1, 0);
    assert!(queue.drain(1, 1).unwrap().is_empty());
}
