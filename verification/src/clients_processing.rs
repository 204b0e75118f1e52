//! Applying the events of the event source to the chat.
use std::collections::hash_map::Entry;
use vstd::prelude::*;

use crate::event::Event;
use crate::number::{parse_u32, parse_u32_spec};
use crate::sequenced_queue::{
    last_insert, lemma_history, lemma_inserts_hand_out_nothing, run, QueueOp, QueueView,
    SequencedQueue,
};
use crate::server::{
    apply_all, keep_all, lemma_update_in_two_steps, one_copy_each, recipient_ids, Users, UsersView,
};

verus! {

broadcast use vstd::std_specs::hash::group_hash_axioms;

/// Adding the message for a new recipient `to` keeps one copy per recipient.
proof fn lemma_one_copy_push(out: Seq<(u32, String)>, ids: Set<u32>, to: u32, msg: String)
    requires
        one_copy_each(out, ids, msg),
        !ids.contains(to),
    ensures
        one_copy_each(out.push((to, msg)), ids.insert(to), msg),
{
    let n = out.push((to, msg));
    assert(recipient_ids(n) =~= recipient_ids(out).push(to));
    assert(!recipient_ids(out).contains(to)) by {
        if recipient_ids(out).contains(to) {
            assert(recipient_ids(out).to_set().contains(to));
        }
    }
    assert(recipient_ids(n).to_set() =~= ids.insert(to)) by {
        assert forall|x: u32| recipient_ids(n).to_set().contains(x) <==> (x == to || ids.contains(x)) by {
            if recipient_ids(n).contains(x) {
                let k = choose|k: int| 0 <= k < recipient_ids(n).len() && recipient_ids(n)[k] == x;
                if k < out.len() {
                    assert(recipient_ids(out)[k] == x);
                    assert(recipient_ids(out).to_set().contains(x));
                }
            }
            if ids.contains(x) {
                assert(recipient_ids(out).to_set().contains(x));
                let k = choose|k: int| 0 <= k < recipient_ids(out).len() && recipient_ids(out)[k] == x;
                assert(recipient_ids(n)[k] == x);
            }
            if x == to {
                assert(recipient_ids(n)[out.len() as int] == to);
            }
        }
    }
}

/// What applying an event leaves to do: the messages to send at once, and the
/// messages to keep for recipients without a client, once every send succeeded.
pub struct PendingUpdate {
    pub outbox: Vec<(u32, String)>,
    pub kept: Vec<(u32, String)>,
}

/// Applies one event to the chat state and tells where its text `msg` goes.
///
/// Follows, unfollows and blocks change the users; the message goes to every
/// recipient of the event (see [`UsersView::recipients`]). The returned outbox
/// holds one copy for each recipient with a connected client, for the caller
/// to send; `kept` holds one copy for each other recipient, to be appended to
/// its waiting messages by [`Users::keep_messages`] once every send of the
/// outbox succeeded.
pub fn update_state<P>(users: &mut Users<P>, event: Event, msg: String) -> (r: PendingUpdate)
    ensures
        final(users)@ == old(users)@.apply_relations(event),
        final(users).peers@ == old(users).peers@,
        one_copy_each(r.outbox@, old(users)@.sent_now(event), msg),
        one_copy_each(r.kept@, old(users)@.kept_for_later(event), msg),
{
    // if message is not possible to send we store it in state in order to send later
    let mut outbox: Vec<(u32, String)> = Vec::new();
    let mut await_messages: Vec<(u32, String)> = Vec::new();
    let ghost s0 = users@;
    proof {
        assert(recipient_ids(outbox@).to_set() =~= Set::<u32>::empty());
        assert(recipient_ids(await_messages@).to_set() =~= Set::<u32>::empty());
    }
    match event {
        // Actor should now be following Target. Target is expected to receive this event.
        Event::Follow { from, to } => {
            let accepted = match users.users.entry(to) {
                Entry::Occupied(entry) => {
                    let user = entry.into_mut();
                    if user.is_not_blocked(from) {
                        user.followers.insert(from);
                        true
                    } else {
                        false
                    }
                },
                Entry::Vacant(_) => false,
            };
            assert(users@.users =~= s0.relations_after(event));
            if accepted {
                users.send_or_keep(to, msg.clone(), &mut outbox, &mut await_messages);
                proof {
                    lemma_one_copy_push(Seq::empty(), Set::empty(), to, msg);
                }
            }
        },
        // Target should be removed from Actor's followers; the target receives the event.
        Event::Unfollow { from, to } => {
            let accepted = match users.users.entry(to) {
                Entry::Occupied(entry) => {
                    let user = entry.into_mut();
                    if user.is_not_blocked(from) {
                        user.followers.remove(&from);
                        true
                    } else {
                        false
                    }
                },
                Entry::Vacant(_) => false,
            };
            assert(users@.users =~= s0.relations_after(event));
            if accepted {
                users.send_or_keep(to, msg.clone(), &mut outbox, &mut await_messages);
                proof {
                    lemma_one_copy_push(Seq::empty(), Set::empty(), to, msg);
                }
            }
        },
        // All followers of Actor are expected to receive this event.
        Event::StatusUpdate { from } => {
            match users.users.get(&from) {
                Some(user) => {
                    let ghost mut done: Set<u32> = Set::empty();
                    assert(s0.status_sent_now(from, done) =~= Set::empty());
                    assert(s0.status_kept(from, done) =~= Set::empty());
                    for follower in it: user.followers.iter()
                        invariant
                            users@ == s0,
                            users.peers@ == old(users).peers@,
                            s0.users.contains_key(from),
                            it.seq().unref().to_set() == s0.users[from].followers,
                            it.seq().unref().no_duplicates(),
                            done == it.seq().unref().take(it.index() as int).to_set(),
                            it.index() == it.seq().len() ==> done == s0.users[from].followers,
                            one_copy_each(
                                outbox@,
                                s0.status_sent_now(from, done),
                                msg,
                            ),
                            one_copy_each(
                                await_messages@,
                                s0.status_kept(from, done),
                                msg,
                            ),
                    {
                        let ghost k = it.index() as int;
                        let ghost fs = it.seq().unref();
                        let ghost ob = outbox@;
                        let ghost aw = await_messages@;
                        let f = *follower;
                        assert(fs[k] == f);
                        assert(fs.take(k + 1) =~= fs.take(k).push(f));
                        assert(!fs.take(k).contains(f)) by {
                            if fs.take(k).contains(f) {
                                let j = choose|j: int| 0 <= j < k && fs.take(k)[j] == f;
                                assert(fs[j] == fs[k]);
                            }
                        }
                        assert(fs.take(k).push(f).to_set() =~= fs.take(k).to_set().insert(f)) by {
                            fs.take(k).lemma_push_to_set_commute(f);
                        }
                        if users.is_not_blocked(from, f) {
                            users.send_or_keep(f, msg.clone(), &mut outbox, &mut await_messages);
                            proof {
                                if s0.peers.contains(f) {
                                    lemma_one_copy_push(
                                        ob,
                                        s0.status_sent_now(from, done),
                                        f,
                                        msg,
                                    );
                                } else {
                                    lemma_one_copy_push(
                                        aw,
                                        s0.status_kept(from, done),
                                        f,
                                        msg,
                                    );
                                }
                            }
                        }
                        assert(s0.status_sent_now(from, done.insert(f)) =~= if s0.is_not_blocked(from, f)
                            && s0.peers.contains(f) {
                            s0.status_sent_now(from, done).insert(f)
                        } else {
                            s0.status_sent_now(from, done)
                        });
                        assert(s0.status_kept(from, done.insert(f)) =~= if s0.is_not_blocked(from, f)
                            && !s0.peers.contains(f) {
                            s0.status_kept(from, done).insert(f)
                        } else {
                            s0.status_kept(from, done)
                        });
                        assert(k + 1 == fs.len() ==> fs.take(k + 1) =~= fs);
                        proof {
                            done = done.insert(f);
                        }
                    }
                    proof {
                        let fs = s0.users[from].followers;
                        assert(s0.sent_now(event) =~= s0.status_sent_now(from, fs));
                        assert(s0.kept_for_later(event) =~= s0.status_kept(from, fs));
                    }
                },
                None => {},
            }
        },
        // Target expects to receive this event.
        Event::PrivateMessage { from, to } => {
            let accepted = match users.users.get(&to) {
                Some(user) => user.is_not_blocked(from),
                None => false,
            };
            if accepted {
                users.send_or_keep(to, msg.clone(), &mut outbox, &mut await_messages);
                proof {
                    lemma_one_copy_push(Seq::empty(), Set::empty(), to, msg);
                }
            }
        },
        // Prevents Actor from receiving a Follow, Status Update, or Private Message from Target.
        Event::Block { from, to } => {
            if let Some(blocked) = users.mut_blocked(from) {
                blocked.insert(to);
            }
        },
    }
    proof {
        assert(users@.users =~= s0.relations_after(event));
        assert(s0.sent_now(event) =~= recipient_ids(outbox@).to_set());
        assert(s0.kept_for_later(event) =~= recipient_ids(await_messages@).to_set());
    }
    PendingUpdate { outbox, kept: await_messages }
}

/// Applying the waiting events of `q` in order of their ids, as long as the
/// next one is there: the final queue and users.
pub open spec fn process(q: QueueView<(Event, String)>, s: UsersView) -> (
    QueueView<(Event, String)>,
    UsersView,
)
    decreases (q.total + 1 - q.current),
{
    if q.has_next() && q.current < u32::MAX {
        let (e, m) = q.items[q.current];
        process(q.step().0, s.update(e, m))
    } else {
        (q, s)
    }
}

/// The messages that [`process`] sends at once to `u`, in order.
pub open spec fn forwarded(q: QueueView<(Event, String)>, s: UsersView, u: u32) -> Seq<String>
    decreases (q.total + 1 - q.current),
{
    if q.has_next() && q.current < u32::MAX {
        let (e, m) = q.items[q.current];
        (if s.sent_now(e).contains(u) {
            seq![m]
        } else {
            Seq::empty()
        }) + forwarded(q.step().0, s.update(e, m), u)
    } else {
        Seq::empty()
    }
}

/// Takes the event with the next id off the queue, if it is there, and
/// applies it to the users (see [`update_state`]); the caller then sends the
/// outbox and settles the kept messages with [`Users::keep_messages`].
pub fn process_next<P>(incomming_events: &mut SequencedQueue<(Event, String)>, state: &mut Users<P>) -> (r:
    Option<PendingUpdate>)
    requires
        !old(incomming_events)@.next_overflows(),
    ensures
        final(incomming_events)@ == old(incomming_events)@.step().0,
        final(state).peers@ == old(state).peers@,
        old(incomming_events)@.step().1 is None ==> r is None && final(state)@ == old(state)@,
        match old(incomming_events)@.step().1 {
            Some((_id, (e, m))) => match r {
                Some(p) => {
                    &&& final(state)@ == old(state)@.apply_relations(e)
                    &&& one_copy_each(p.outbox@, old(state)@.sent_now(e), m)
                    &&& one_copy_each(p.kept@, old(state)@.kept_for_later(e), m)
                },
                None => false,
            },
            None => true,
        },
{
    match incomming_events.next() {
        Some((_id, (event, msg))) => Some(update_state(state, event, msg)),
        None => None,
    }
}

/// One event taken off the queue, its sends all made, and its kept messages
/// settled: this is the first step of [`process`].
pub proof fn lemma_step_then_keep_is_process(
    q: QueueView<(Event, String)>,
    s: UsersView,
    kept: Seq<(u32, String)>,
)
    requires
        q.has_next(),
        q.current < u32::MAX,
        one_copy_each(kept, s.kept_for_later(q.items[q.current].0), q.items[q.current].1),
    ensures
        process(q, s) == process(
            q.step().0,
            UsersView { users: keep_all(s.apply_relations(q.items[q.current].0).users, kept), ..s },
        ),
{
    lemma_update_in_two_steps(s, q.items[q.current].0, q.items[q.current].1, kept);
}

/// Why the event source gave no number of users.
#[derive(Debug, Clone, Copy, PartialEq, Eq, Structural)]
pub enum SourceError {
    /// The event source closed the connection before its first line.
    NoUserCount,
    /// The first line of the event source is not a decimal number.
    InvalidUserCount,
}

/// Reads the number of users from the first line of the event source.
pub fn init_event_source(first_line: Option<&str>) -> (r: Result<u32, SourceError>)
    ensures
        match first_line {
            None => r == Err::<u32, SourceError>(SourceError::NoUserCount),
            Some(line) => match parse_u32_spec(line@) {
                Some(n) => r == Ok::<u32, SourceError>(n),
                None => r == Err::<u32, SourceError>(SourceError::InvalidUserCount),
            },
        },
{
    match first_line {
        Some(line) => match parse_u32(line) {
            Some(user_num) => Ok(user_num),
            None => Err(SourceError::InvalidUserCount),
        },
        None => Err(SourceError::NoUserCount),
    }
}

/// What the connection of a client waits for.
#[derive(Debug, Clone, Copy, PartialEq, Eq, Structural)]
pub enum ForwardPhase {
    /// Waiting for a message for the client, or for the event queue to finish.
    Listening,
    /// The event queue has finished: waiting, with a timeout, for the last messages.
    Draining,
}

/// What happened while the connection of a client waited.
#[derive(Debug, Clone, PartialEq, Eq)]
pub enum ForwardEvent {
    /// The event queue reported whether it has handed out all its events.
    QueueFinished(bool),
    /// The channel of the client gave a message, or `None` when it is closed.
    Message(Option<String>),
    /// No message came before the timeout.
    TimedOut,
}

/// What the connection of a client does next.
#[derive(Debug, Clone, PartialEq, Eq)]
pub enum ForwardAction {
    /// Send this message to the client, then wait again.
    Send(String),
    /// Wait for the next message or for the queue to finish.
    Wait,
    /// Wait for the next message, with a timeout.
    WaitWithTimeout,
    /// Close the connection and forget the client.
    Close,
}

/// One decision of the loop that forwards messages to a client: from the phase
/// and what happened, the next phase and what to do.
///
/// Every message that arrives is sent; the connection closes when the channel
/// closes, or when the queue has finished and no message comes in time.
pub fn forward_step(phase: ForwardPhase, event: ForwardEvent) -> (r: (ForwardPhase, ForwardAction))
    ensures
        match event {
            ForwardEvent::Message(Some(msg)) => r == (ForwardPhase::Listening, ForwardAction::Send(msg)),
            ForwardEvent::Message(None) => r.1 == ForwardAction::Close,
            ForwardEvent::QueueFinished(true) => r == (
                ForwardPhase::Draining,
                ForwardAction::WaitWithTimeout,
            ),
            ForwardEvent::QueueFinished(false) => r == (phase, if phase == ForwardPhase::Draining {
                ForwardAction::WaitWithTimeout
            } else {
                ForwardAction::Wait
            }),
            ForwardEvent::TimedOut => r == (phase, if phase == ForwardPhase::Draining {
                ForwardAction::Close
            } else {
                ForwardAction::Wait
            }),
        },
{
    match event {
        ForwardEvent::Message(Some(msg)) => (ForwardPhase::Listening, ForwardAction::Send(msg)),
        // the channel is closed: no more messages for this client
        ForwardEvent::Message(None) => (phase, ForwardAction::Close),
        // make sure there is no other messages in receiver before closing socket
        ForwardEvent::QueueFinished(true) => (ForwardPhase::Draining, ForwardAction::WaitWithTimeout),
        ForwardEvent::QueueFinished(false) => match phase {
            ForwardPhase::Draining => (phase, ForwardAction::WaitWithTimeout),
            ForwardPhase::Listening => (phase, ForwardAction::Wait),
        },
        // deadline has elapsed and the receiver is empty
        ForwardEvent::TimedOut => match phase {
            ForwardPhase::Draining => (phase, ForwardAction::Close),
            ForwardPhase::Listening => (phase, ForwardAction::Wait),
        },
    }
}

/// While the event with the next id is missing, no event is applied and
/// nothing is sent, whatever later events are waiting.
pub proof fn lemma_gap_holds_back(q: QueueView<(Event, String)>, s: UsersView, u: u32)
    requires
        !q.has_next(),
    ensures
        process(q, s) == (q, s),
        forwarded(q, s, u) == Seq::<String>::empty(),
{
}

/// When every event up to the last one is waiting, processing applies them
/// all, in order of their ids, and the queue is finished.
pub proof fn lemma_process_applies_all(q: QueueView<(Event, String)>, s: UsersView)
    requires
        q.counter_in_range(),
        q.all_waiting(),
        q.total < u32::MAX,
    ensures
        process(q, s).0.finished(),
        process(q, s).0.items == q.items.remove_keys(
            Set::new(|i: u32| q.current <= i <= q.total),
        ),
    decreases (q.total + 1 - q.current),
{
    if q.has_next() {
        let n = q.step().0;
        let (e, m) = q.items[q.current];
        assert(n.all_waiting());
        lemma_process_applies_all(n, s.update(e, m));
        assert(n.items.remove_keys(Set::new(|i: u32| n.current <= i <= n.total)) =~= q.items.remove_keys(
            Set::new(|i: u32| q.current <= i <= q.total),
        ));
    } else {
        assert(q.items.remove_keys(Set::new(|i: u32| q.current <= i <= q.total)) =~= q.items);
    }
}

/// Processing the queue is applying the events that draining it hands out,
/// in order of their ids.
pub proof fn lemma_process_is_apply_all(q: QueueView<(Event, String)>, s: UsersView)
    ensures
        process(q, s).0 == q.drain().0,
        process(q, s).1 == apply_all(s, q.drain().1.map_values(|item: (u32, (Event, String))| item.1)),
    decreases (q.total + 1 - q.current),
{
    if q.has_next() && q.current < u32::MAX {
        let (e, m) = q.items[q.current];
        let n = q.step().0;
        lemma_process_is_apply_all(n, s.update(e, m));
        lemma_apply_all_prepend(s, (e, m), n.drain().1.map_values(|item: (u32, (Event, String))| item.1));
        assert(q.drain().1.map_values(|item: (u32, (Event, String))| item.1) =~= seq![(e, m)]
            + n.drain().1.map_values(|item: (u32, (Event, String))| item.1));
    } else {
        assert(q.drain().1.map_values(|item: (u32, (Event, String))| item.1) =~= Seq::<(Event, String)>::empty());
    }
}

proof fn lemma_apply_all_prepend(s: UsersView, first: (Event, String), rest: Seq<(Event, String)>)
    ensures
        apply_all(s, seq![first] + rest) == apply_all(s.update(first.0, first.1), rest),
    decreases rest.len(),
{
    if rest.len() == 0 {
        assert(seq![first] + rest =~= seq![first]);
        assert(seq![first].drop_last() =~= Seq::<(Event, String)>::empty());
        assert(apply_all(s, seq![first]) == apply_all(s, Seq::empty()).update(first.0, first.1));
    } else {
        lemma_apply_all_prepend(s, first, rest.drop_last());
        assert((seq![first] + rest).drop_last() =~= seq![first] + rest.drop_last());
        assert((seq![first] + rest).last() == rest.last());
    }
}

proof fn lemma_process_agree(
    q1: QueueView<(Event, String)>,
    q2: QueueView<(Event, String)>,
    s: UsersView,
    u: u32,
)
    requires
        q1.current == q2.current,
        q1.total == q2.total,
        q1.total < u32::MAX,
        q1.counter_in_range(),
        q1.all_waiting(),
        q2.all_waiting(),
        forall|id: u32| q1.current <= id <= q1.total ==> #[trigger] q1.items[id] == q2.items[id],
    ensures
        process(q1, s).1 == process(q2, s).1,
        forwarded(q1, s, u) == forwarded(q2, s, u),
    decreases (q1.total + 1 - q1.current),
{
    if q1.has_next() {
        let (e, m) = q1.items[q1.current];
        let n1 = q1.step().0;
        let n2 = q2.step().0;
        assert(q2.has_next());
        assert(n1.all_waiting());
        assert(n2.all_waiting());
        lemma_process_agree(n1, n2, s.update(e, m), u);
    }
}

/// Once all events `1..=total` have arrived, processing gives the same users
/// and sends the same messages to every user, whatever the order in which
/// the events arrived (an id that arrived twice counts with its last event).
pub proof fn lemma_arrival_order_irrelevant(
    total: u32,
    ins1: Seq<QueueOp<(Event, String)>>,
    ins2: Seq<QueueOp<(Event, String)>>,
    s: UsersView,
    u: u32,
)
    requires
        total < u32::MAX,
        forall|i: int| 0 <= i < ins1.len() ==> #[trigger] ins1[i] is Insert,
        forall|i: int| 0 <= i < ins2.len() ==> #[trigger] ins2[i] is Insert,
        forall|id: u32|
            1 <= id <= total ==> #[trigger] last_insert(ins1, id) is Some && last_insert(ins1, id)
                == last_insert(ins2, id),
    ensures
        process(run(QueueView::init(total), ins1).0, s).1 == process(
            run(QueueView::init(total), ins2).0,
            s,
        ).1,
        forwarded(run(QueueView::init(total), ins1).0, s, u) == forwarded(
            run(QueueView::init(total), ins2).0,
            s,
            u,
        ),
{
    let q0 = QueueView::<(Event, String)>::init(total);
    lemma_history(total, ins1);
    lemma_history(total, ins2);
    lemma_inserts_hand_out_nothing(q0, ins1);
    lemma_inserts_hand_out_nothing(q0, ins2);
    let q1 = run(q0, ins1).0;
    let q2 = run(q0, ins2).0;
    assert forall|id: u32| q1.current <= id <= q1.total implies #[trigger] q1.items.contains_key(id) by {
        assert(last_insert(ins1, id) is Some);
    }
    assert forall|id: u32| q2.current <= id <= q2.total implies #[trigger] q2.items.contains_key(id) by {
        assert(last_insert(ins1, id) is Some);
        assert(last_insert(ins2, id) is Some);
    }
    assert forall|id: u32| q1.current <= id <= q1.total implies #[trigger] q1.items[id] == q2.items[id] by {
        assert(last_insert(ins1, id) is Some);
        assert(q1.items.contains_key(id));
        assert(q2.items.contains_key(id));
    }
    lemma_process_agree(q1, q2, s, u);
}

/// The queue after inserting the events of `lines` (each with its id), in order.
pub open spec fn insert_all(q: QueueView<(Event, String)>, lines: Seq<(u32, (Event, String))>) -> QueueView<
    (Event, String),
>
    decreases lines.len(),
{
    if lines.len() == 0 {
        q
    } else {
        insert_all(q, lines.drop_last()).insert(lines.last().0, lines.last().1)
    }
}

/// Reading the events of `lines` one by one, inserting each into the queue
/// and then processing what is ready: the final queue and users.
pub open spec fn listen(q: QueueView<(Event, String)>, s: UsersView, lines: Seq<(u32, (Event, String))>) -> (
    QueueView<(Event, String)>,
    UsersView,
)
    decreases lines.len(),
{
    if lines.len() == 0 {
        (q, s)
    } else {
        let (q1, s1) = listen(q, s, lines.drop_last());
        process(q1.insert(lines.last().0, lines.last().1), s1)
    }
}

/// The messages that reading `lines` one by one sends at once to `u`, in order.
pub open spec fn listen_forwarded(
    q: QueueView<(Event, String)>,
    s: UsersView,
    lines: Seq<(u32, (Event, String))>,
    u: u32,
) -> Seq<String>
    decreases lines.len(),
{
    if lines.len() == 0 {
        Seq::empty()
    } else {
        let (q1, s1) = listen(q, s, lines.drop_last());
        listen_forwarded(q, s, lines.drop_last(), u) + forwarded(
            q1.insert(lines.last().0, lines.last().1),
            s1,
            u,
        )
    }
}

/// The ids of `lines` are all different, and none is waiting in `q` already.
pub open spec fn fresh_ids(q: QueueView<(Event, String)>, lines: Seq<(u32, (Event, String))>) -> bool {
    &&& forall|i: int, j: int|
        0 <= i < lines.len() && 0 <= j < lines.len() && i != j ==> #[trigger] lines[i].0
            != #[trigger] lines[j].0
    &&& forall|i: int| 0 <= i < lines.len() ==> !q.items.contains_key(#[trigger] lines[i].0)
}

/// Processing the queue first and then inserting an event whose id is not
/// waiting gives the same as inserting it first and processing once.
proof fn lemma_insert_then_process(
    q: QueueView<(Event, String)>,
    s: UsersView,
    id: u32,
    item: (Event, String),
    u: u32,
)
    requires
        !q.items.contains_key(id),
    ensures
        process(q.insert(id, item), s) == process(process(q, s).0.insert(id, item), process(q, s).1),
        forwarded(q.insert(id, item), s, u) == forwarded(q, s, u) + forwarded(
            process(q, s).0.insert(id, item),
            process(q, s).1,
            u,
        ),
    decreases (q.total + 1 - q.current),
{
    let qi = q.insert(id, item);
    if q.has_next() && q.current < u32::MAX {
        let (e, m) = q.items[q.current];
        assert(qi.has_next());
        assert(qi.items[qi.current] == q.items[q.current]);
        assert(qi.step().0 =~= q.step().0.insert(id, item)) by {
            assert(qi.step().0.items =~= q.step().0.insert(id, item).items);
        }
        lemma_insert_then_process(q.step().0, s.update(e, m), id, item, u);
        assert(forwarded(qi, s, u) =~= forwarded(q, s, u) + forwarded(
            process(q, s).0.insert(id, item),
            process(q, s).1,
            u,
        ));
    } else {
        assert(forwarded(q, s, u) + forwarded(qi, s, u) =~= forwarded(qi, s, u));
    }
}

proof fn lemma_insert_all_items(
    q: QueueView<(Event, String)>,
    lines: Seq<(u32, (Event, String))>,
    id: u32,
)
    requires
        fresh_ids(q, lines),
    ensures
        insert_all(q, lines).current == q.current,
        insert_all(q, lines).total == q.total,
        forall|i: int|
            0 <= i < lines.len() && #[trigger] lines[i].0 == id ==> insert_all(
                q,
                lines,
            ).items.contains_key(id) && insert_all(q, lines).items[id] == lines[i].1,
        (forall|i: int| 0 <= i < lines.len() ==> #[trigger] lines[i].0 != id) ==> (insert_all(
            q,
            lines,
        ).items.contains_key(id) == q.items.contains_key(id) && (q.items.contains_key(id)
            ==> insert_all(q, lines).items[id] == q.items[id])),
    decreases lines.len(),
{
    if lines.len() > 0 {
        let d = lines.drop_last();
        assert(fresh_ids(q, d)) by {
            assert forall|i: int, j: int|
                0 <= i < d.len() && 0 <= j < d.len() && i != j implies #[trigger] d[i].0
                    != #[trigger] d[j].0 by {
                assert(d[i] == lines[i] && d[j] == lines[j]);
            }
        }
        lemma_insert_all_items(q, d, id);
        assert forall|i: int|
            0 <= i < lines.len() && #[trigger] lines[i].0 == id implies insert_all(
                q,
                lines,
            ).items.contains_key(id) && insert_all(q, lines).items[id] == lines[i].1 by {
            if i < lines.len() - 1 {
                assert(d[i] == lines[i]);
                assert(lines[i].0 != lines[lines.len() - 1].0);
            }
        }
        if forall|i: int| 0 <= i < lines.len() ==> #[trigger] lines[i].0 != id {
            assert forall|i: int| 0 <= i < d.len() implies #[trigger] d[i].0 != id by {
                assert(d[i] == lines[i]);
            }
            assert(lines[lines.len() - 1].0 != id);
        }
    }
}

/// Starting from a queue with nothing ready, reading events one by one and
/// processing after each is the same as inserting them all and then
/// processing once: the same queue, the same users and, for every user, the
/// same messages sent at once in the same order.
pub proof fn lemma_listen_is_batch(
    q: QueueView<(Event, String)>,
    s: UsersView,
    lines: Seq<(u32, (Event, String))>,
    u: u32,
)
    requires
        !q.has_next(),
        fresh_ids(q, lines),
    ensures
        listen(q, s, lines) == process(insert_all(q, lines), s),
        listen_forwarded(q, s, lines, u) == forwarded(insert_all(q, lines), s, u),
    decreases lines.len(),
{
    if lines.len() == 0 {
        assert(listen_forwarded(q, s, lines, u) =~= forwarded(q, s, u));
    } else {
        let d = lines.drop_last();
        let (id, item) = lines.last();
        assert(fresh_ids(q, d)) by {
            assert forall|i: int, j: int|
                0 <= i < d.len() && 0 <= j < d.len() && i != j implies #[trigger] d[i].0
                    != #[trigger] d[j].0 by {
                assert(d[i] == lines[i] && d[j] == lines[j]);
            }
        }
        lemma_listen_is_batch(q, s, d, u);
        let qa = insert_all(q, d);
        lemma_insert_all_items(q, d, id);
        assert(!qa.items.contains_key(id)) by {
            assert forall|i: int| 0 <= i < d.len() implies #[trigger] d[i].0 != id by {
                assert(d[i] == lines[i]);
                assert(lines[i].0 != lines[lines.len() - 1].0);
            }
            assert(!q.items.contains_key(lines[lines.len() - 1].0));
        }
        lemma_insert_then_process(qa, s, id, item, u);
    }
}

/// Reading the same events in another order ends with the same queue, the
/// same users and, for every user, the same messages sent at once in the same
/// order.
pub proof fn lemma_listen_order_irrelevant(
    q: QueueView<(Event, String)>,
    s: UsersView,
    lines1: Seq<(u32, (Event, String))>,
    lines2: Seq<(u32, (Event, String))>,
    u: u32,
)
    requires
        !q.has_next(),
        fresh_ids(q, lines1),
        fresh_ids(q, lines2),
        lines1.to_set() == lines2.to_set(),
    ensures
        listen(q, s, lines1) == listen(q, s, lines2),
        listen_forwarded(q, s, lines1, u) == listen_forwarded(q, s, lines2, u),
{
    lemma_listen_is_batch(q, s, lines1, u);
    lemma_listen_is_batch(q, s, lines2, u);
    let a = insert_all(q, lines1);
    let b = insert_all(q, lines2);
    assert forall|id: u32| #[trigger] a.items.contains_key(id) == b.items.contains_key(id) && (
    a.items.contains_key(id) ==> a.items[id] == b.items[id]) by {
        lemma_insert_all_items(q, lines1, id);
        lemma_insert_all_items(q, lines2, id);
        if exists|i: int| 0 <= i < lines1.len() && #[trigger] lines1[i].0 == id {
            let i = choose|i: int| 0 <= i < lines1.len() && #[trigger] lines1[i].0 == id;
            assert(lines1.to_set().contains(lines1[i]));
            assert(lines2.contains(lines1[i]));
            let j = choose|j: int| 0 <= j < lines2.len() && lines2[j] == lines1[i];
            assert(lines2[j].0 == id);
        } else if exists|j: int| 0 <= j < lines2.len() && #[trigger] lines2[j].0 == id {
            let j = choose|j: int| 0 <= j < lines2.len() && #[trigger] lines2[j].0 == id;
            assert(lines2.to_set().contains(lines2[j]));
            assert(lines1.contains(lines2[j]));
            let i = choose|i: int| 0 <= i < lines1.len() && lines1[i] == lines2[j];
            assert(lines1[i].0 == id);
        }
    }
    assert(a.items =~= b.items);
    lemma_insert_all_items(q, lines1, 0);
    lemma_insert_all_items(q, lines2, 0);
    assert(a == b);
}

} // verus!
