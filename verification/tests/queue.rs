use event_forwarder::sequenced_queue::SequencedQueue;

#[test]
fn test_queue() {
    let mut objects = vec![(1, "a"), (2, "b"), (4, "c")];
    let mut queue = SequencedQueue::new(objects.len() as u32);
    for (id, msg) in objects.drain(..) {
        queue.insert(id, msg);
    }
    assert_eq!(queue.next().unwrap(), (1, "a"));
    assert_eq!(queue.next().unwrap(), (2, "b"));
    assert_eq!(queue.next(), None);
}

#[test]
fn queue_waits_for_missing_id_then_resumes() {
    let mut queue = SequencedQueue::new(3);
    queue.insert(2, "b");
    assert_eq!(queue.next(), None);
    assert_eq!(queue.next(), None);
    assert_eq!(queue.current(), 1);
    queue.insert(1, "a");
    assert_eq!(queue.next(), Some((1, "a")));
    assert_eq!(queue.next(), Some((2, "b")));
    assert_eq!(queue.current(), 3);
    assert!(!queue.finished());
}

#[test]
fn queue_finishes_after_total_items() {
    let mut queue = SequencedQueue::new(2);
    queue.insert(3, "c");
    queue.insert(2, "b");
    queue.insert(1, "a");
    assert!(!queue.finished());
    assert_eq!(queue.next(), Some((1, "a")));
    assert_eq!(queue.next(), Some((2, "b")));
    assert!(queue.finished());
    assert_eq!(queue.next(), None);
    queue.insert(4, "d");
    assert!(queue.finished());
    assert_eq!(queue.next(), None);
}

#[test]
fn queue_insert_replaces_item_with_same_id() {
    let mut queue = SequencedQueue::new(1);
    queue.insert(1, "old");
    queue.insert(1, "new");
    assert_eq!(queue.next(), Some((1, "new")));
    assert_eq!(queue.next(), None);
}

#[test]
fn empty_queue_is_finished_at_once() {
    let mut queue: SequencedQueue<u8> = SequencedQueue::new(0);
    assert!(queue.finished());
    queue.insert(1, 7);
    assert_eq!(queue.next(), None);
}

#[test]
fn misc_queue_hands_out_items_alone() {
    let mut queue = event_forwarder::misc::SequencedQueue::new(3);
    queue.insert(3, 'c');
    queue.insert(1, 'a');
    assert_eq!(queue.next(), Some('a'));
    assert_eq!(queue.next(), None);
    assert!(!queue.finished());
    queue.insert(2, 'b');
    assert_eq!(queue.next(), Some('b'));
    assert_eq!(queue.next(), Some('c'));
    assert!(queue.finished());
    assert_eq!(queue.next(), None);
}

#[test]
fn stray_ids_are_never_handed_out() {
    let mut queue = SequencedQueue::new(2);
    queue.insert(0, "zero");
    queue.insert(3, "past the total");
    queue.insert(1, "a");
    assert_eq!(queue.next(), Some((1, "a")));
    queue.insert(1, "again");
    assert_eq!(queue.next(), None);
    queue.insert(2, "b");
    assert_eq!(queue.next(), Some((2, "b")));
    assert!(queue.finished());
    assert_eq!(queue.next(), None);
}
