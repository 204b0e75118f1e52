use event_forwarder::clients_processing::{
    forward_step, process_next, update_state, ForwardAction, ForwardEvent, ForwardPhase,
};
use event_forwarder::event::Event;
use event_forwarder::sequenced_queue::SequencedQueue;
use event_forwarder::server::{PeerError, SendFailed, Users};
use event_forwarder::user::User;

const FOLLOW1_FROM1_TO2: &str = "1/F/1/2\n";

fn connect_clients(num: u32, chat_users: &mut Users<u32>) {
    for i in 1..=num {
        let line = format!("{}", i);
        let (id, kept) = chat_users.new_peer(Some(&line), i).unwrap();
        assert_eq!(id, i);
        assert!(kept.is_empty());
        chat_users.send_await(id, Ok(())).unwrap();
    }
}

/// Applies an event whose sends all succeed; returns what was sent.
fn apply(users: &mut Users<u32>, event: Event, msg: String) -> Vec<(u32, String)> {
    let pending = update_state(users, event, msg);
    users.keep_messages(pending.kept, Ok(())).unwrap();
    pending.outbox
}

/// Processes every ready event of the queue, all sends succeeding.
fn drain(queue: &mut SequencedQueue<(Event, String)>, users: &mut Users<u32>) -> Vec<(u32, String)> {
    let mut sent = Vec::new();
    while let Some(pending) = process_next(queue, users) {
        users.keep_messages(pending.kept, Ok(())).unwrap();
        sent.extend(pending.outbox);
    }
    sent
}

fn waiting(users: &Users<u32>, id: u32) -> Vec<String> {
    users.users.get(&id).unwrap().await_messages.iter().cloned().collect()
}

#[test]
fn follow() {
    let users_num = 2;
    let mut chat_users: Users<u32> = Users::new(users_num);
    connect_clients(users_num, &mut chat_users);
    let a = apply(&mut chat_users, Event::Follow { from: 1, to: 2 }, "1/F/1/2".to_string());
    let b = apply(&mut chat_users, Event::Follow { from: 2, to: 1 }, "2/F/2/1".to_string());
    assert_eq!(a, vec![(2, "1/F/1/2".to_string())]);
    assert_eq!(b, vec![(1, "2/F/2/1".to_string())]);
    assert!(chat_users.followers(1).unwrap().contains(&2));
}

#[test]
fn event_source() {
    let queue_size = 1;
    let users_num = 2;
    let mut chat_users: Users<u32> = Users::new(users_num);
    let mut incomming_events = SequencedQueue::new(queue_size);
    connect_clients(users_num, &mut chat_users);
    let line = FOLLOW1_FROM1_TO2.split("\n").next().unwrap();
    incomming_events.insert(1, (Event::Follow { from: 1, to: 2 }, line.to_string()));
    let sent = drain(&mut incomming_events, &mut chat_users);
    assert_eq!(sent, vec![(2, line.to_string())]);
    assert!(incomming_events.finished());
}

#[test]
fn client() {
    let users_num = 2;
    let mut chat_users: Users<u32> = Users::new(users_num);
    connect_clients(users_num, &mut chat_users);
    let msg = FOLLOW1_FROM1_TO2.split("\n").next().unwrap().to_string();
    let outbox = apply(&mut chat_users, Event::Follow { from: 1, to: 2 }, msg.clone());
    assert_eq!(outbox.len(), 1);
    let (to, text) = outbox[0].clone();
    // the message goes through the channel handle stored for user 2
    assert_eq!(to, 2);
    assert_eq!(chat_users.peers.get(&to), Some(&2));
    // the connection of client 2 forwards it, then closes once the queue is finished
    let (phase, action) = forward_step(ForwardPhase::Listening, ForwardEvent::QueueFinished(false));
    assert_eq!((phase, action), (ForwardPhase::Listening, ForwardAction::Wait));
    let (phase, action) = forward_step(phase, ForwardEvent::Message(Some(text)));
    assert_eq!((phase, action), (ForwardPhase::Listening, ForwardAction::Send(msg.clone())));
    let (phase, action) = forward_step(phase, ForwardEvent::QueueFinished(true));
    assert_eq!((phase, action), (ForwardPhase::Draining, ForwardAction::WaitWithTimeout));
    let (phase2, action) = forward_step(phase, ForwardEvent::Message(Some(msg.clone())));
    assert_eq!((phase2, action), (ForwardPhase::Listening, ForwardAction::Send(msg)));
    let (_, action) = forward_step(phase, ForwardEvent::TimedOut);
    assert_eq!(action, ForwardAction::Close);
    let (_, action) = forward_step(ForwardPhase::Listening, ForwardEvent::Message(None));
    assert_eq!(action, ForwardAction::Close);
}

#[test]
fn reconnect_replaces_the_channel_handle() {
    let mut users: Users<u32> = Users::new(2);
    users.new_peer(Some("1"), 10).unwrap();
    users.new_peer(Some("2"), 20).unwrap();
    users.new_peer(Some("1"), 11).unwrap();
    assert_eq!(users.peers.get(&1), Some(&11));
    assert_eq!(users.peers.get(&2), Some(&20));
    assert!(users.new_peer(Some("x"), 12).is_err());
    assert_eq!(users.peers.get(&1), Some(&11));
    apply(&mut users, Event::Block { from: 1, to: 2 }, "1/B/1/2".to_string());
    users.generate_users(2);
    assert_eq!(users.peers.get(&1), Some(&11));
    assert_eq!(users.peers.get(&2), Some(&20));
    users.remove_peer(1);
    assert_eq!(users.peers.get(&1), None);
    assert_eq!(users.peers.get(&2), Some(&20));
}

#[test]
fn new_users_have_ids_one_to_n() {
    let users: Users<u32> = Users::new(3);
    assert_eq!(users.users.len(), 3);
    for id in 1..=3 {
        assert!(users.followers(id).unwrap().is_empty());
        assert!(users.blocked(id).unwrap().is_empty());
        assert!(waiting(&users, id).is_empty());
    }
    assert!(users.followers(0).is_none());
    assert!(users.followers(4).is_none());
    assert!(!users.contains(1));
}

#[test]
fn generate_users_resets_listed_ids_only() {
    let mut users: Users<u32> = Users::new(2);
    apply(&mut users, Event::Follow { from: 1, to: 2 }, "1/F/1/2".to_string());
    users.users.insert(9, User::default());
    users.mut_followers(9).unwrap().insert(5);
    users.generate_users(3);
    assert!(users.followers(2).unwrap().is_empty());
    assert!(users.followers(3).is_some());
    assert!(users.followers(9).unwrap().contains(&5));
}

#[test]
fn messages_for_absent_users_are_kept_then_handed_out_in_order() {
    let mut users: Users<u32> = Users::new(3);
    users.new_peer(Some("1"), 10).unwrap();
    let sent = apply(&mut users, Event::Follow { from: 1, to: 2 }, "1/F/1/2".to_string());
    assert!(sent.is_empty());
    let sent = apply(&mut users, Event::PrivateMessage { from: 3, to: 2 }, "2/P/3/2".to_string());
    assert!(sent.is_empty());
    assert_eq!(waiting(&users, 2), vec!["1/F/1/2".to_string(), "2/P/3/2".to_string()]);
    let (id, kept) = users.new_peer(Some("+2"), 20).unwrap();
    assert_eq!(id, 2);
    assert_eq!(kept, vec!["1/F/1/2".to_string(), "2/P/3/2".to_string()]);
    assert_eq!(waiting(&users, 2).len(), 2);
    users.send_await(2, Ok(())).unwrap();
    assert!(waiting(&users, 2).is_empty());
    let sent = apply(&mut users, Event::PrivateMessage { from: 3, to: 2 }, "3/P/3/2".to_string());
    assert_eq!(sent, vec![(2, "3/P/3/2".to_string())]);
    assert!(waiting(&users, 2).is_empty());
}

#[test]
fn status_update_reaches_followers_that_do_not_block() {
    let mut users: Users<u32> = Users::new(4);
    users.new_peer(Some("2"), 2).unwrap();
    users.new_peer(Some("3"), 3).unwrap();
    apply(&mut users, Event::Follow { from: 2, to: 1 }, "1/F/2/1".to_string());
    apply(&mut users, Event::Follow { from: 3, to: 1 }, "2/F/3/1".to_string());
    apply(&mut users, Event::Follow { from: 4, to: 1 }, "3/F/4/1".to_string());
    apply(&mut users, Event::Block { from: 3, to: 1 }, "4/B/3/1".to_string());
    let mut sent = apply(&mut users, Event::StatusUpdate { from: 1 }, "5/S/1".to_string());
    sent.sort();
    assert_eq!(sent, vec![(2, "5/S/1".to_string())]);
    assert_eq!(waiting(&users, 4), vec!["5/S/1".to_string()]);
    assert!(waiting(&users, 3).is_empty());
}

#[test]
fn block_silences_the_blocked_user() {
    let mut users: Users<u32> = Users::new(2);
    users.new_peer(Some("1"), 1).unwrap();
    let sent = apply(&mut users, Event::Block { from: 1, to: 2 }, "1/B/1/2".to_string());
    assert!(sent.is_empty());
    assert!(users.blocked(1).unwrap().contains(&2));
    assert!(!users.is_not_blocked(2, 1));
    assert!(users.is_not_blocked(1, 2));
    assert!(apply(&mut users, Event::Follow { from: 2, to: 1 }, "2/F/2/1".to_string()).is_empty());
    assert!(apply(&mut users, Event::PrivateMessage { from: 2, to: 1 }, "3/P/2/1".to_string()).is_empty());
    assert!(apply(&mut users, Event::Unfollow { from: 2, to: 1 }, "4/U/2/1".to_string()).is_empty());
    assert!(!users.followers(1).unwrap().contains(&2));
    // the other direction still works
    let sent = apply(&mut users, Event::PrivateMessage { from: 1, to: 2 }, "5/P/1/2".to_string());
    assert!(sent.is_empty());
    assert_eq!(waiting(&users, 2), vec!["5/P/1/2".to_string()]);
}

#[test]
fn unfollow_stops_status_updates() {
    let mut users: Users<u32> = Users::new(2);
    users.new_peer(Some("2"), 2).unwrap();
    apply(&mut users, Event::Follow { from: 2, to: 1 }, "1/F/2/1".to_string());
    assert_eq!(apply(&mut users, Event::StatusUpdate { from: 1 }, "2/S/1".to_string()), vec![(2, "2/S/1".to_string())]);
    let sent = apply(&mut users, Event::Unfollow { from: 2, to: 1 }, "3/U/2/1".to_string());
    assert!(sent.is_empty());
    assert_eq!(waiting(&users, 1), vec!["1/F/2/1".to_string(), "3/U/2/1".to_string()]);
    assert!(apply(&mut users, Event::StatusUpdate { from: 1 }, "4/S/1".to_string()).is_empty());
}

#[test]
fn events_about_unknown_users_are_ignored() {
    let mut users: Users<u32> = Users::new(1);
    assert!(apply(&mut users, Event::Follow { from: 1, to: 7 }, "1/F/1/7".to_string()).is_empty());
    assert!(apply(&mut users, Event::Block { from: 7, to: 1 }, "2/B/7/1".to_string()).is_empty());
    assert!(apply(&mut users, Event::StatusUpdate { from: 7 }, "3/S/7".to_string()).is_empty());
    assert!(users.followers(7).is_none());
    assert!(users.followers(1).unwrap().is_empty());
}

#[test]
fn connected_non_user_follower_still_gets_status() {
    let mut users: Users<u32> = Users::new(1);
    users.new_peer(Some("9"), 9).unwrap();
    apply(&mut users, Event::Follow { from: 9, to: 1 }, "1/F/9/1".to_string());
    assert_eq!(apply(&mut users, Event::StatusUpdate { from: 1 }, "2/S/1".to_string()), vec![(9, "2/S/1".to_string())]);
}

#[test]
fn new_peer_errors() {
    let mut users: Users<u32> = Users::new(1);
    assert_eq!(users.new_peer(None, 1).unwrap_err(), PeerError::NoId);
    assert_eq!(users.new_peer(Some("one"), 1).unwrap_err(), PeerError::InvalidId);
    assert!(!users.contains(1));
}

#[test]
fn remove_peer_makes_messages_wait_again() {
    let mut users: Users<u32> = Users::new(2);
    users.new_peer(Some("2"), 2).unwrap();
    assert!(users.contains(2));
    users.remove_peer(2);
    assert!(!users.contains(2));
    assert!(apply(&mut users, Event::PrivateMessage { from: 1, to: 2 }, "1/P/1/2".to_string()).is_empty());
    assert_eq!(waiting(&users, 2), vec!["1/P/1/2".to_string()]);
    assert_eq!(users.awaiting(2), Vec::<String>::new());
    users.send_await(2, Ok(())).unwrap();
    assert!(waiting(&users, 2).is_empty());
}

#[test]
fn process_and_forward_applies_events_in_id_order() {
    let mut users: Users<u32> = Users::new(2);
    users.new_peer(Some("1"), 1).unwrap();
    let mut queue = SequencedQueue::new(3);
    queue.insert(3, (Event::PrivateMessage { from: 2, to: 1 }, "3/P/2/1".to_string()));
    queue.insert(2, (Event::Block { from: 1, to: 2 }, "2/B/1/2".to_string()));
    assert!(drain(&mut queue, &mut users).is_empty());
    queue.insert(1, (Event::PrivateMessage { from: 2, to: 1 }, "1/P/2/1".to_string()));
    let sent = drain(&mut queue, &mut users);
    // the private message after the block is not delivered
    assert_eq!(sent, vec![(1, "1/P/2/1".to_string())]);
    assert!(queue.finished());
}

#[test]
fn send_or_keep_routes_by_connection() {
    let mut users: Users<u32> = Users::new(2);
    users.new_peer(Some("1"), 1).unwrap();
    let mut outbox = Vec::new();
    let mut kept = Vec::new();
    users.send_or_keep(1, "a".to_string(), &mut outbox, &mut kept);
    users.send_or_keep(2, "b".to_string(), &mut outbox, &mut kept);
    assert_eq!(outbox, vec![(1, "a".to_string())]);
    assert_eq!(kept, vec![(2, "b".to_string())]);
}

#[test]
fn user_is_not_blocked() {
    let mut user = User::default();
    assert!(user.is_not_blocked(3));
    user.blocked.insert(3);
    assert!(!user.is_not_blocked(3));
    assert!(user.is_not_blocked(4));
}

#[test]
fn processing_does_not_depend_on_arrival_order() {
    let events = vec![
        (1, Event::Follow { from: 2, to: 1 }, "1/F/2/1"),
        (2, Event::Block { from: 2, to: 1 }, "2/B/2/1"),
        (3, Event::StatusUpdate { from: 1 }, "3/S/1"),
        (4, Event::PrivateMessage { from: 1, to: 2 }, "4/P/1/2"),
    ];
    let mut results = Vec::new();
    for order in [[0usize, 1, 2, 3], [3, 1, 2, 0], [2, 0, 3, 1]] {
        let mut users: Users<u32> = Users::new(2);
        users.new_peer(Some("1"), 1).unwrap();
        let mut queue = SequencedQueue::new(4);
        let mut sent = Vec::new();
        for i in order {
            let (id, event, msg) = events[i].clone();
            queue.insert(id, (event, msg.to_string()));
            sent.extend(drain(&mut queue, &mut users));
        }
        assert!(queue.finished());
        results.push((sent, waiting(&users, 1), waiting(&users, 2), users.followers(1).unwrap().clone()));
    }
    assert_eq!(results[0], results[1]);
    assert_eq!(results[0], results[2]);
    // user 2 blocked 1 before the status update and the private message
    assert_eq!(results[0].0, vec![(1, "1/F/2/1".to_string())]);
    assert!(results[0].1.is_empty());
    assert!(results[0].2.is_empty());
    assert!(results[0].3.contains(&2));
}

#[test]
fn failed_send_keeps_no_message_but_keeps_the_follow() {
    let mut users: Users<u32> = Users::new(3);
    users.new_peer(Some("2"), 2).unwrap();
    users.send_await(2, Ok(())).unwrap();
    apply(&mut users, Event::Follow { from: 2, to: 1 }, "1/F/2/1".to_string());
    apply(&mut users, Event::Follow { from: 3, to: 1 }, "2/F/3/1".to_string());
    // the status update goes to 2 at once and is kept for 3, unless the send to 2 fails
    let pending = update_state(&mut users, Event::StatusUpdate { from: 1 }, "3/S/1".to_string());
    assert_eq!(pending.outbox, vec![(2, "3/S/1".to_string())]);
    assert_eq!(pending.kept, vec![(3, "3/S/1".to_string())]);
    assert_eq!(users.keep_messages(pending.kept, Err(2)), Err(SendFailed { to: 2 }));
    assert!(waiting(&users, 3).is_empty());
    // a follow whose send fails still takes effect
    users.new_peer(Some("1"), 1).unwrap();
    users.send_await(1, Ok(())).unwrap();
    let pending = update_state(&mut users, Event::Follow { from: 3, to: 2 }, "4/F/3/2".to_string());
    assert_eq!(users.keep_messages(pending.kept, Err(2)), Err(SendFailed { to: 2 }));
    assert!(users.followers(2).unwrap().contains(&3));
}

#[test]
fn failed_send_of_kept_messages_keeps_the_later_ones() {
    let mut users: Users<u32> = Users::new(1);
    for (i, text) in ["1/P/2/1", "2/P/2/1", "3/P/2/1"].iter().enumerate() {
        apply(&mut users, Event::PrivateMessage { from: 2, to: 1 }, text.to_string());
        assert_eq!(waiting(&users, 1).len(), i + 1);
    }
    let (_, kept) = users.new_peer(Some("1"), 1).unwrap();
    assert_eq!(kept.len(), 3);
    assert_eq!(users.send_await(1, Err(0)), Err(SendFailed { to: 1 }));
    assert_eq!(waiting(&users, 1), vec!["2/P/2/1".to_string(), "3/P/2/1".to_string()]);
    assert_eq!(users.awaiting(1), vec!["2/P/2/1".to_string(), "3/P/2/1".to_string()]);
    assert_eq!(users.send_await(1, Err(1)), Err(SendFailed { to: 1 }));
    assert!(waiting(&users, 1).is_empty());
}
