//! The users of the chat and their connections.
use std::collections::hash_map::Entry;
use std::collections::{HashMap, HashSet};
use vstd::prelude::*;

use crate::event::Event;
use crate::number::{parse_u32, parse_u32_spec};
use crate::user::{User, UserView};

verus! {

broadcast use vstd::std_specs::hash::group_hash_axioms;

/// The abstract state of [`Users`].
pub struct UsersView {
    /// Ids of the users that have a connected client.
    pub peers: Set<u32>,
    /// The users of the chat, by id.
    pub users: Map<u32, UserView>,
}

/// `users` with every id of `1..=n` (re)set to a fresh user.
pub open spec fn with_fresh_users(users: Map<u32, UserView>, n: u32) -> Map<u32, UserView> {
    Map::new(
        |i: u32| users.contains_key(i) || 1 <= i <= n,
        |i: u32|
            if 1 <= i <= n {
                UserView::empty()
            } else {
                users[i]
            },
    )
}

/// The recipient ids of the messages in `out`.
pub open spec fn recipient_ids(out: Seq<(u32, String)>) -> Seq<u32> {
    out.map_values(|p: (u32, String)| p.0)
}

/// `out` holds exactly one copy of `msg` for each id of `ids`, and nothing else.
pub open spec fn one_copy_each(out: Seq<(u32, String)>, ids: Set<u32>, msg: String) -> bool {
    &&& forall|i: int| 0 <= i < out.len() ==> (#[trigger] out[i]).1 == msg
    &&& recipient_ids(out).no_duplicates()
    &&& recipient_ids(out).to_set() == ids
}

/// `users` with `msg` appended to the waiting messages of each user in `ids`.
pub open spec fn keep_for_later(users: Map<u32, UserView>, ids: Set<u32>, msg: String) -> Map<
    u32,
    UserView,
> {
    Map::new(
        |u: u32| users.contains_key(u),
        |u: u32|
            if ids.contains(u) {
                UserView { await_messages: users[u].await_messages.push(msg), ..users[u] }
            } else {
                users[u]
            },
    )
}

impl UsersView {
    /// `n` fresh users with ids `1..=n` and no connected client.
    pub open spec fn init(n: u32) -> Self {
        UsersView { peers: Set::empty(), users: with_fresh_users(Map::empty(), n) }
    }

    /// `to` does not block `from`: `to` is unknown or `from` is not on its black list.
    pub open spec fn is_not_blocked(self, from: u32, to: u32) -> bool {
        !(self.users.contains_key(to) && self.users[to].blocked.contains(from))
    }

    /// `to` is a user that accepts events from `from`.
    pub open spec fn accepts(self, to: u32, from: u32) -> bool {
        self.users.contains_key(to) && !self.users[to].blocked.contains(from)
    }

    /// Where a message for `to` goes: to its client if connected, otherwise
    /// into its waiting messages (if it is a user).
    pub open spec fn send_or_keep(self, to: u32) -> bool {
        self.peers.contains(to)
    }

    /// The users that must receive event `e`: the target of a follow, unfollow
    /// or private message unless it blocks the actor, and the followers of the
    /// actor of a status update that do not block it.
    pub open spec fn recipients(self, e: Event) -> Set<u32> {
        match e {
            Event::Follow { from, to } => if self.accepts(to, from) {
                set![to]
            } else {
                Set::empty()
            },
            Event::Unfollow { from, to } => if self.accepts(to, from) {
                set![to]
            } else {
                Set::empty()
            },
            Event::PrivateMessage { from, to } => if self.accepts(to, from) {
                set![to]
            } else {
                Set::empty()
            },
            Event::StatusUpdate { from } => if self.users.contains_key(from) {
                self.users[from].followers.filter(|f: u32| self.is_not_blocked(from, f))
            } else {
                Set::empty()
            },
            Event::Block { .. } => Set::empty(),
        }
    }

    /// Among `ids`, those with a connected client that accept a status update of `from`.
    pub open spec fn status_sent_now(self, from: u32, ids: Set<u32>) -> Set<u32> {
        ids.filter(|f: u32| self.is_not_blocked(from, f) && self.peers.contains(f))
    }

    /// Among `ids`, those without a connected client that accept a status update of `from`.
    pub open spec fn status_kept(self, from: u32, ids: Set<u32>) -> Set<u32> {
        ids.filter(|f: u32| self.is_not_blocked(from, f) && !self.peers.contains(f))
    }

    /// The users after the follow, unfollow or block of `e` took effect.
    pub open spec fn relations_after(self, e: Event) -> Map<u32, UserView> {
        match e {
            Event::Follow { from, to } => if self.accepts(to, from) {
                self.users.insert(
                    to,
                    UserView { followers: self.users[to].followers.insert(from), ..self.users[to] },
                )
            } else {
                self.users
            },
            Event::Unfollow { from, to } => if self.accepts(to, from) {
                self.users.insert(
                    to,
                    UserView { followers: self.users[to].followers.remove(from), ..self.users[to] },
                )
            } else {
                self.users
            },
            Event::Block { from, to } => if self.users.contains_key(from) {
                self.users.insert(
                    from,
                    UserView { blocked: self.users[from].blocked.insert(to), ..self.users[from] },
                )
            } else {
                self.users
            },
            _ => self.users,
        }
    }

    /// The recipients of `e` whose client is connected: they get `msg` at once.
    pub open spec fn sent_now(self, e: Event) -> Set<u32> {
        self.recipients(e).intersect(self.peers)
    }

    /// The recipients of `e` whose client is not connected: `msg` is kept for them.
    pub open spec fn kept_for_later(self, e: Event) -> Set<u32> {
        self.recipients(e).difference(self.peers)
    }

    /// The state after applying event `e`, whose text is `msg`.
    pub open spec fn update(self, e: Event, msg: String) -> Self {
        UsersView {
            peers: self.peers,
            users: keep_for_later(self.relations_after(e), self.kept_for_later(e), msg),
        }
    }

    /// The messages waiting for `id` that are to be sent to its client:
    /// all of them, oldest first, if `id` is a user with a connected client.
    pub open spec fn awaiting(self, id: u32) -> Seq<String> {
        if self.users.contains_key(id) && self.peers.contains(id) {
            self.users[id].await_messages
        } else {
            Seq::empty()
        }
    }

    /// The state after the client of `id` connects, and the waiting messages
    /// to send it (oldest first).
    pub open spec fn connect(self, id: u32) -> (Self, Seq<String>) {
        let s = UsersView { peers: self.peers.insert(id), ..self };
        (s, s.awaiting(id))
    }

    /// The state after the waiting messages of `id` were handed to the
    /// channel one by one: all of them leave the list when every send
    /// succeeded (or when `id` has no client, in which case they are dropped);
    /// when send number `failed` (counted from 0) failed, that message and the
    /// ones before it have left the list and the later ones stay waiting.
    pub open spec fn settle_awaiting(self, id: u32, sent: Result<(), usize>) -> Self {
        if self.users.contains_key(id) {
            let waiting = self.users[id].await_messages;
            let rest = match sent {
                Ok(()) => Seq::empty(),
                Err(failed) => if failed < waiting.len() {
                    waiting.skip(failed + 1)
                } else {
                    Seq::empty()
                },
            };
            UsersView {
                users: self.users.insert(id, UserView { await_messages: rest, ..self.users[id] }),
                ..self
            }
        } else {
            self
        }
    }

    /// The users after the relations of `e` took effect, before any message
    /// is kept.
    pub open spec fn apply_relations(self, e: Event) -> Self {
        UsersView { users: self.relations_after(e), ..self }
    }
}

/// `users` after appending each message of `kept` to the waiting messages of
/// its recipient (recipients that are not users are skipped), in order.
pub open spec fn keep_all(users: Map<u32, UserView>, kept: Seq<(u32, String)>) -> Map<
    u32,
    UserView,
>
    decreases kept.len(),
{
    if kept.len() == 0 {
        users
    } else {
        let before = keep_all(users, kept.drop_last());
        let (to, msg) = kept.last();
        if before.contains_key(to) {
            before.insert(
                to,
                UserView { await_messages: before[to].await_messages.push(msg), ..before[to] },
            )
        } else {
            before
        }
    }
}

/// A send to the client of `to` failed: its channel is closed.
#[derive(Debug, Clone, Copy, PartialEq, Eq, Structural)]
pub struct SendFailed {
    pub to: u32,
}

/// Users state and connections: the chat users and, for each connected client,
/// the handle `P` through which its messages are sent.
#[derive(Debug)]
pub struct Users<P> {
    /// mapping to associated user channel
    pub peers: HashMap<u32, P>,
    /// mapping to user's business logic data
    pub users: HashMap<u32, User>,
}

impl<P> View for Users<P> {
    type V = UsersView;

    open spec fn view(&self) -> UsersView {
        UsersView { peers: self.peers@.dom(), users: self.users@.map_values(|u: User| u@) }
    }
}

impl<P> Users<P> {
    /// Users `1..=num_users`, none of them connected.
    pub fn new(num_users: u32) -> (r: Self)
        ensures
            r@ == UsersView::init(num_users),
            r.peers@ == Map::<u32, P>::empty(),
    {
        let mut r = Users { peers: HashMap::new(), users: HashMap::new() };
        assert(r@.users =~= with_fresh_users(Map::empty(), 0));
        r.generate_users(num_users);
        assert(r@.peers =~= Set::<u32>::empty());
        assert(with_fresh_users(with_fresh_users(Map::empty(), 0), num_users) =~= with_fresh_users(
            Map::empty(),
            num_users,
        ));
        r
    }

    /// generate users_num users in state
    pub fn generate_users(&mut self, users_num: u32)
        ensures
            final(self)@ == (UsersView {
                users: with_fresh_users(old(self)@.users, users_num),
                ..old(self)@
            }),
            final(self).peers@ == old(self).peers@,
    {
        let mut i: u32 = 0;
        assert(with_fresh_users(old(self)@.users, 0) =~= old(self)@.users);
        while i < users_num
            invariant
                i <= users_num,
                self@ == (UsersView { users: with_fresh_users(old(self)@.users, i), ..old(self)@ }),
                self.peers@ == old(self).peers@,
            decreases users_num - i,
        {
            let ghost before = self@.users;
            i = i + 1;
            let fresh = User::default();
            self.users.insert(i, fresh);
            assert(self@.users =~= before.insert(i, UserView::empty()));
            assert(self@.users =~= with_fresh_users(old(self)@.users, i));
        }
    }

    /// A client with id `user` is connected.
    pub fn contains(&self, user: u32) -> (r: bool)
        ensures
            r == self@.peers.contains(user),
    {
        self.peers.contains_key(&user)
    }

    /// `to` does not block `from`.
    pub fn is_not_blocked(&self, from: u32, to: u32) -> (r: bool)
        ensures
            r == self@.is_not_blocked(from, to),
    {
        match self.blocked(to) {
            Some(list) => !list.contains(&from),
            None => true,
        }
    }

    /// The followers of `user`, if it is a user.
    pub fn followers(&self, user: u32) -> (r: Option<&HashSet<u32>>)
        ensures
            match r {
                Some(f) => self@.users.contains_key(user) && f@ == self@.users[user].followers,
                None => !self@.users.contains_key(user),
            },
    {
        match self.users.get(&user) {
            Some(u) => Some(&u.followers),
            None => None,
        }
    }

    /// The black list of `user`, if it is a user.
    pub fn blocked(&self, user: u32) -> (r: Option<&HashSet<u32>>)
        ensures
            match r {
                Some(b) => self@.users.contains_key(user) && b@ == self@.users[user].blocked,
                None => !self@.users.contains_key(user),
            },
    {
        match self.users.get(&user) {
            Some(u) => Some(&u.blocked),
            None => None,
        }
    }

    /// The followers of `user`, for changing them in place, if it is a user.
    pub fn mut_followers(&mut self, user: u32) -> (r: Option<&mut HashSet<u32>>)
        ensures
            final(self).peers@ == old(self).peers@,
            match r {
                Some(f) => {
                    &&& old(self)@.users.contains_key(user)
                    &&& f@ == old(self)@.users[user].followers
                    &&& final(self)@.users == old(self)@.users.insert(
                        user,
                        UserView { followers: final(f)@, ..old(self)@.users[user] },
                    )
                },
                None => !old(self)@.users.contains_key(user) && final(self)@ == old(self)@,
            },
    {
        match self.users.entry(user) {
            Entry::Occupied(entry) => {
                let u = entry.into_mut();
                proof {
                    assert(old(self).users@.insert(user, *final(u)).map_values(|v: User| v@)
                        =~= old(self)@.users.insert(user, final(u)@));
                }
                Some(&mut u.followers)
            },
            Entry::Vacant(_) => {
                proof {
                    assert(old(self).users@.remove(user) =~= old(self).users@);
                }
                None
            },
        }
    }

    /// The black list of `user`, for changing it in place, if it is a user.
    pub fn mut_blocked(&mut self, user: u32) -> (r: Option<&mut HashSet<u32>>)
        ensures
            final(self).peers@ == old(self).peers@,
            match r {
                Some(b) => {
                    &&& old(self)@.users.contains_key(user)
                    &&& b@ == old(self)@.users[user].blocked
                    &&& final(self)@.users == old(self)@.users.insert(
                        user,
                        UserView { blocked: final(b)@, ..old(self)@.users[user] },
                    )
                },
                None => !old(self)@.users.contains_key(user) && final(self)@ == old(self)@,
            },
    {
        match self.users.entry(user) {
            Entry::Occupied(entry) => {
                let u = entry.into_mut();
                proof {
                    assert(old(self).users@.insert(user, *final(u)).map_values(|v: User| v@)
                        =~= old(self)@.users.insert(user, final(u)@));
                }
                Some(&mut u.blocked)
            },
            Entry::Vacant(_) => {
                proof {
                    assert(old(self).users@.remove(user) =~= old(self).users@);
                }
                None
            },
        }
    }

    /// A message for `to` goes to `outbox` if `to` has a connected client (the
    /// caller sends it there) and to `await_messages` otherwise.
    pub fn send_or_keep(
        &self,
        to: u32,
        msg: String,
        outbox: &mut Vec<(u32, String)>,
        await_messages: &mut Vec<(u32, String)>,
    )
        ensures
            self@.send_or_keep(to) ==> final(outbox)@ == old(outbox)@.push((to, msg))
                && final(await_messages)@ == old(await_messages)@,
            !self@.send_or_keep(to) ==> final(outbox)@ == old(outbox)@
                && final(await_messages)@ == old(await_messages)@.push((to, msg)),
    {
        if self.peers.contains_key(&to) {
            outbox.push((to, msg));
        } else {
            await_messages.push((to, msg))
        }
    }

    /// The waiting messages of `id` have been handed to its client, oldest
    /// first, with outcome `sent` (see [`UsersView::settle_awaiting`]): removes
    /// those that left, and reports a failed send.
    pub fn send_await(&mut self, id: u32, sent: Result<(), usize>) -> (r: Result<(), SendFailed>)
        ensures
            final(self)@ == old(self)@.settle_awaiting(id, sent),
            final(self).peers@ == old(self).peers@,
            r == match sent {
                Ok(()) => Ok::<(), SendFailed>(()),
                Err(_) => Err(SendFailed { to: id }),
            },
    {
        match self.users.remove(&id) {
            Some(mut user) => {
                let ghost waiting = user.await_messages@;
                let ghost before = user@;
                let leaving: usize = match sent {
                    Ok(()) => user.await_messages.len(),
                    Err(failed) => if failed < user.await_messages.len() {
                        failed + 1
                    } else {
                        user.await_messages.len()
                    },
                };
                let mut removed: usize = 0;
                while removed < leaving
                    invariant
                        leaving <= waiting.len(),
                        removed <= leaving,
                        user.followers@ == before.followers,
                        user.blocked@ == before.blocked,
                        user.await_messages@ == waiting.skip(removed as int),
                    decreases leaving - removed,
                {
                    user.await_messages.pop_front();
                    removed = removed + 1;
                }
                assert(waiting.skip(waiting.len() as int) =~= Seq::<String>::empty());
                self.users.insert(id, user);
                assert(self@.users =~= old(self)@.settle_awaiting(id, sent).users);
            },
            None => {
                assert(self@.users =~= old(self)@.users);
            },
        }
        match sent {
            Ok(()) => Ok(()),
            Err(_) => Err(SendFailed { to: id }),
        }
    }

    /// The messages waiting for `id`, oldest first, to be sent to its client
    /// (none if `id` is not a user or has no client).
    pub fn awaiting(&self, id: u32) -> (r: Vec<String>)
        ensures
            r@ == self@.awaiting(id),
    {
        let mut out: Vec<String> = Vec::new();
        if self.peers.contains_key(&id) {
            match self.users.get(&id) {
                Some(user) => {
                    let n = user.await_messages.len();
                    let mut i: usize = 0;
                    while i < n
                        invariant
                            n == user.await_messages@.len(),
                            i <= n,
                            out@ == user.await_messages@.take(i as int),
                        decreases n - i,
                    {
                        out.push(user.await_messages[i].clone());
                        i = i + 1;
                        assert(out@ =~= user.await_messages@.take(i as int));
                    }
                    assert(user.await_messages@.take(n as int) =~= user.await_messages@);
                },
                None => {},
            }
        }
        out
    }

    /// A client has sent `line` as its first line: its id. Registers `peer`
    /// as its connection (replacing an earlier one for that id) and returns
    /// the messages kept for it, to be sent and then settled with
    /// [`Users::send_await`].
    pub fn new_peer(&mut self, line: Option<&str>, peer: P) -> (r: Result<(u32, Vec<String>), PeerError>)
        ensures
            match line {
                None => r == Err::<(u32, Vec<String>), PeerError>(PeerError::NoId)
                    && final(self)@ == old(self)@ && final(self).peers@ == old(self).peers@,
                Some(l) => match parse_u32_spec(l@) {
                    None => r == Err::<(u32, Vec<String>), PeerError>(PeerError::InvalidId)
                        && final(self)@ == old(self)@ && final(self).peers@ == old(self).peers@,
                    Some(id) => r matches Ok((rid, msgs)) && rid == id
                        && (final(self)@, msgs@) == old(self)@.connect(id)
                        && final(self).peers@ == old(self).peers@.insert(id, peer),
                },
            },
    {
        let id = match line {
            Some(l) => match parse_u32(l) {
                Some(id) => id,
                None => return Err(PeerError::InvalidId),
            },
            None => return Err(PeerError::NoId),
        };
        self.peers.insert(id, peer);
        let msgs = self.awaiting(id);
        Ok((id, msgs))
    }

    /// The sends of an event's outbox are done, with outcome `sent` (`Err`
    /// with the recipient whose send failed). If every send succeeded, the
    /// event's messages for recipients without a client are kept, in order;
    /// after a failed send nothing is kept and the failure is reported.
    pub fn keep_messages(&mut self, kept: Vec<(u32, String)>, sent: Result<(), u32>) -> (r: Result<
        (),
        SendFailed,
    >)
        ensures
            final(self).peers@ == old(self).peers@,
            match sent {
                Ok(()) => r == Ok::<(), SendFailed>(()) && final(self)@ == (UsersView {
                    users: keep_all(old(self)@.users, kept@),
                    ..old(self)@
                }),
                Err(to) => r == Err::<(), SendFailed>(SendFailed { to }) && final(self)@ == old(
                    self,
                )@,
            },
    {
        if let Err(to) = sent {
            return Err(SendFailed { to });
        }
        let mut i: usize = 0;
        assert(kept@.take(0) =~= Seq::<(u32, String)>::empty());
        while i < kept.len()
            invariant
                i <= kept.len(),
                self.peers@ == old(self).peers@,
                self@.users == keep_all(old(self)@.users, kept@.take(i as int)),
            decreases kept.len() - i,
        {
            let to = kept[i].0;
            let msg = kept[i].1.clone();
            let ghost before = self@.users;
            assert(kept@.take(i + 1).drop_last() =~= kept@.take(i as int));
            assert(kept@.take(i + 1).last() == kept@[i as int]);
            match self.users.entry(to) {
                Entry::Occupied(entry) => {
                    let user = entry.into_mut();
                    user.await_messages.push_back(msg);
                },
                Entry::Vacant(_) => {
                    assert(self@.users =~= before);
                },
            }
            assert(before.contains_key(to) ==> self@.users =~= before.insert(
                to,
                UserView { await_messages: before[to].await_messages.push(msg), ..before[to] },
            ));
            i = i + 1;
        }
        assert(kept@.take(kept.len() as int) =~= kept@);
        Ok(())
    }

    /// The client of `id` has disconnected.
    pub fn remove_peer(&mut self, id: u32)
        ensures
            final(self)@ == (UsersView { peers: old(self)@.peers.remove(id), ..old(self)@ }),
            final(self).peers@ == old(self).peers@.remove(id),
    {
        self.peers.remove(&id);
    }
}

/// Why a client could not be registered.
#[derive(Debug, Clone, Copy, PartialEq, Eq, Structural)]
pub enum PeerError {
    /// The client closed the connection before sending its id.
    NoId,
    /// The first line of the client is not a decimal id.
    InvalidId,
}

/// A user that has blocked `b` receives no event whose actor is `b`: no
/// follow, unfollow, private message or status update of `b`.
pub proof fn lemma_block_silences(s: UsersView, a: u32, b: u32, e: Event)
    requires
        s.users.contains_key(a),
        s.users[a].blocked.contains(b),
        e.actor() == b,
    ensures
        !s.recipients(e).contains(a),
{
}

/// No event unblocks anyone or removes a user: black lists only grow, the
/// set of users and of connected clients stays the same.
pub proof fn lemma_blocks_persist(s: UsersView, e: Event, msg: String)
    ensures
        s.update(e, msg).users.dom() == s.users.dom(),
        s.update(e, msg).peers == s.peers,
        forall|u: u32| #[trigger]
            s.users.contains_key(u) ==> s.users[u].blocked.subset_of(
                s.update(e, msg).users[u].blocked,
            ),
{
    assert(s.update(e, msg).users.dom() =~= s.users.dom());
}

/// Once `a` has blocked `b`, the next event of `b` does not reach `a`.
pub proof fn lemma_block_then_silenced(s: UsersView, a: u32, b: u32, msg: String, e: Event)
    requires
        s.users.contains_key(a),
        e.actor() == b,
    ensures
        !s.update(Event::Block { from: a, to: b }, msg).recipients(e).contains(a),
{
    let s1 = s.update(Event::Block { from: a, to: b }, msg);
    assert(s1.users[a].blocked.contains(b));
    lemma_block_silences(s1, a, b, e);
}

/// After `f` starts following `t`, a status update of `t` reaches `f`,
/// unless `f` blocks `t`.
pub proof fn lemma_follow_then_status(s: UsersView, f: u32, t: u32, m1: String)
    requires
        s.accepts(t, f),
        s.is_not_blocked(t, f),
    ensures
        s.update(Event::Follow { from: f, to: t }, m1).recipients(Event::StatusUpdate { from: t }).contains(f),
{
    let s1 = s.update(Event::Follow { from: f, to: t }, m1);
    assert(s1.users[t].followers.contains(f));
    assert(s1.is_not_blocked(t, f));
}

/// After `f` stops following `t`, status updates of `t` no longer reach `f`.
pub proof fn lemma_unfollow_then_no_status(s: UsersView, f: u32, t: u32, m1: String)
    requires
        s.accepts(t, f),
    ensures
        !s.update(Event::Unfollow { from: f, to: t }, m1).recipients(Event::StatusUpdate { from: t }).contains(f),
{
    let s1 = s.update(Event::Unfollow { from: f, to: t }, m1);
    assert(!s1.users[t].followers.contains(f));
}

/// Each recipient that is a user gets the message exactly once: at once if
/// its client is connected, otherwise appended to its waiting messages;
/// everybody else's waiting messages stay as they were.
pub proof fn lemma_delivered_once(s: UsersView, e: Event, msg: String, u: u32)
    requires
        s.users.contains_key(u),
    ensures
        s.sent_now(e).contains(u) ==> !s.kept_for_later(e).contains(u)
            && s.update(e, msg).users[u].await_messages == s.users[u].await_messages,
        s.kept_for_later(e).contains(u) ==> s.update(e, msg).users[u].await_messages
            == s.users[u].await_messages.push(msg),
        s.recipients(e).contains(u) <==> (s.sent_now(e).contains(u) || s.kept_for_later(e).contains(u)),
        !s.recipients(e).contains(u) ==> s.update(e, msg).users[u].await_messages
            == s.users[u].await_messages,
{
}

/// A message kept for a user that is not connected is handed to it, after
/// the older ones, when its client connects, and leaves the list once sent.
pub proof fn lemma_kept_then_handed_out(s: UsersView, e: Event, msg: String, u: u32)
    requires
        s.users.contains_key(u),
        !s.peers.contains(u),
        s.recipients(e).contains(u),
    ensures
        s.update(e, msg).connect(u).1 == s.users[u].await_messages.push(msg),
        s.update(e, msg).connect(u).0.settle_awaiting(u, Ok(())).users[u].await_messages
            == Seq::<String>::empty(),
{
}

/// Once its client is connected, a user gets its messages at once and keeps
/// none for later.
pub proof fn lemma_connected_gets_messages_now(s: UsersView, id: u32, e: Event, msg: String)
    ensures
        s.connect(id).0.peers.contains(id),
        s.connect(id).0.recipients(e).contains(id) ==> s.connect(id).0.sent_now(e).contains(id)
            && !s.connect(id).0.kept_for_later(e).contains(id),
{
}

/// The state after applying the events of `es` (each with its text) in order.
pub open spec fn apply_all(s: UsersView, es: Seq<(Event, String)>) -> UsersView
    decreases es.len(),
{
    if es.len() == 0 {
        s
    } else {
        apply_all(s, es.drop_last()).update(es.last().0, es.last().1)
    }
}

/// Over any sequence of events, users stay users and black lists only grow.
pub proof fn lemma_blocks_persist_all(s: UsersView, es: Seq<(Event, String)>, u: u32)
    requires
        s.users.contains_key(u),
    ensures
        apply_all(s, es).users.contains_key(u),
        s.users[u].blocked.subset_of(apply_all(s, es).users[u].blocked),
    decreases es.len(),
{
    if es.len() > 0 {
        lemma_blocks_persist_all(s, es.drop_last(), u);
        lemma_blocks_persist(apply_all(s, es.drop_last()), es.last().0, es.last().1);
    }
}

/// Once `a` has blocked `b`, no event of `b` reaches `a` any more, whatever
/// events come in between.
pub proof fn lemma_block_is_permanent(
    s: UsersView,
    a: u32,
    b: u32,
    msg: String,
    es: Seq<(Event, String)>,
    e: Event,
)
    requires
        s.users.contains_key(a),
        e.actor() == b,
    ensures
        !apply_all(s.update(Event::Block { from: a, to: b }, msg), es).recipients(e).contains(a),
{
    let s1 = s.update(Event::Block { from: a, to: b }, msg);
    assert(s1.users[a].blocked.contains(b));
    lemma_blocks_persist_all(s1, es, a);
    lemma_block_silences(apply_all(s1, es), a, b, e);
}

/// When a send of the waiting messages fails, the message whose send failed
/// and the ones before it have left the list; the later ones still wait, in
/// order, for the next connection.
pub proof fn lemma_failed_send_keeps_the_rest(s: UsersView, id: u32, failed: usize)
    requires
        s.users.contains_key(id),
        failed < s.users[id].await_messages.len(),
    ensures
        s.settle_awaiting(id, Err(failed)).users[id].await_messages == s.users[id].await_messages.skip(
            failed + 1,
        ),
        s.settle_awaiting(id, Err(failed)).peers == s.peers,
{
}

/// Keeping one copy of `msg` for each id of `ids`, in any order, is appending
/// `msg` to the waiting messages of each of them that is a user.
pub proof fn lemma_keep_all_one_copy(
    users: Map<u32, UserView>,
    kept: Seq<(u32, String)>,
    ids: Set<u32>,
    msg: String,
)
    requires
        one_copy_each(kept, ids, msg),
    ensures
        keep_all(users, kept) == keep_for_later(users, ids, msg),
    decreases kept.len(),
{
    if kept.len() == 0 {
        assert(recipient_ids(kept).to_set() =~= Set::<u32>::empty());
        assert(keep_for_later(users, ids, msg) =~= users);
    } else {
        let d = kept.drop_last();
        let last = kept.last().0;
        assert(recipient_ids(d) =~= recipient_ids(kept).drop_last());
        assert(recipient_ids(kept)[kept.len() - 1] == last);
        assert(!recipient_ids(d).contains(last)) by {
            if recipient_ids(d).contains(last) {
                let j = choose|j: int| 0 <= j < d.len() && recipient_ids(d)[j] == last;
                assert(recipient_ids(kept)[j] == recipient_ids(kept)[kept.len() - 1]);
            }
        }
        assert(recipient_ids(d).to_set() =~= ids.remove(last)) by {
            assert forall|x: u32| recipient_ids(d).to_set().contains(x) <==> ids.remove(
                last,
            ).contains(x) by {
                if recipient_ids(d).contains(x) {
                    let j = choose|j: int| 0 <= j < d.len() && recipient_ids(d)[j] == x;
                    assert(recipient_ids(kept)[j] == x);
                    assert(recipient_ids(kept).to_set().contains(x));
                }
                if ids.contains(x) && x != last {
                    assert(recipient_ids(kept).to_set().contains(x));
                    let j = choose|j: int|
                        0 <= j < recipient_ids(kept).len() && recipient_ids(kept)[j] == x;
                    assert(j != kept.len() - 1);
                    assert(recipient_ids(d)[j] == x);
                }
            }
        }
        assert(ids.contains(last)) by {
            assert(recipient_ids(kept).to_set().contains(last));
        }
        assert(kept[kept.len() - 1].1 == msg);
        lemma_keep_all_one_copy(users, d, ids.remove(last), msg);
        assert(keep_all(users, kept) =~= keep_for_later(users, ids, msg));
    }
}

/// Applying the relations of an event and then keeping its message for the
/// recipients without a connected client gives the full update.
pub proof fn lemma_update_in_two_steps(s: UsersView, e: Event, msg: String, kept: Seq<(u32, String)>)
    requires
        one_copy_each(kept, s.kept_for_later(e), msg),
    ensures
        (UsersView { users: keep_all(s.apply_relations(e).users, kept), ..s }) == s.update(e, msg),
{
    lemma_keep_all_one_copy(s.relations_after(e), kept, s.kept_for_later(e), msg);
}

/// The users of `UsersView::init(n)` are exactly the ids `1..=n`, each with no
/// followers, no blocks and no waiting messages, and no client is connected.
pub proof fn lemma_init_users(n: u32)
    ensures
        forall|i: u32| #[trigger] UsersView::init(n).users.contains_key(i) <==> 1 <= i <= n,
        forall|i: u32| 1 <= i <= n ==> #[trigger] UsersView::init(n).users[i] == UserView::empty(),
        UsersView::init(n).peers == Set::<u32>::empty(),
{
}

/// `generate_users(n)` (re)sets exactly the users `1..=n` to empty users and
/// keeps every other user as it was.
pub proof fn lemma_fresh_users(users: Map<u32, UserView>, n: u32)
    ensures
        forall|i: u32|
            #[trigger] with_fresh_users(users, n).contains_key(i) <==> (1 <= i <= n
                || users.contains_key(i)),
        forall|i: u32| 1 <= i <= n ==> #[trigger] with_fresh_users(users, n)[i] == UserView::empty(),
        forall|i: u32|
            !(1 <= i <= n) && users.contains_key(i) ==> #[trigger] with_fresh_users(users, n)[i]
                == users[i],
{
}

/// A follow that `to` accepts adds `from` to the followers of `to` and
/// changes nothing else: no other follower set, no black list, no user added
/// or removed. A follow that `to` does not accept (unknown user, or `to`
/// blocks `from`) changes no user.
pub proof fn lemma_follow_effect(s: UsersView, from: u32, to: u32)
    ensures
        s.apply_relations(Event::Follow { from, to }).users.dom() == s.users.dom(),
        s.apply_relations(Event::Follow { from, to }).peers == s.peers,
        (s.users.contains_key(to) && !s.users[to].blocked.contains(from)) ==> s.apply_relations(
            Event::Follow { from, to },
        ).users[to].followers == s.users[to].followers.insert(from),
        !(s.users.contains_key(to) && !s.users[to].blocked.contains(from)) ==> s.apply_relations(
            Event::Follow { from, to },
        ).users == s.users,
        forall|u: u32|
            s.users.contains_key(u) && u != to ==> #[trigger] s.apply_relations(
                Event::Follow { from, to },
            ).users[u] == s.users[u],
        forall|u: u32|
            #![trigger s.apply_relations(Event::Follow { from, to }).users[u]]
            s.users.contains_key(u) ==> s.apply_relations(Event::Follow { from, to }).users[u].blocked
                == s.users[u].blocked && s.apply_relations(
                Event::Follow { from, to },
            ).users[u].await_messages == s.users[u].await_messages,
{
    assert(s.apply_relations(Event::Follow { from, to }).users.dom() =~= s.users.dom());
}

/// An unfollow that `to` accepts removes `from`, and only `from`, from the
/// followers of `to`, and changes nothing else; one that `to` does not accept
/// changes no user.
pub proof fn lemma_unfollow_effect(s: UsersView, from: u32, to: u32)
    ensures
        s.apply_relations(Event::Unfollow { from, to }).users.dom() == s.users.dom(),
        s.apply_relations(Event::Unfollow { from, to }).peers == s.peers,
        (s.users.contains_key(to) && !s.users[to].blocked.contains(from)) ==> s.apply_relations(
            Event::Unfollow { from, to },
        ).users[to].followers == s.users[to].followers.remove(from),
        !(s.users.contains_key(to) && !s.users[to].blocked.contains(from)) ==> s.apply_relations(
            Event::Unfollow { from, to },
        ).users == s.users,
        forall|u: u32|
            s.users.contains_key(u) && u != to ==> #[trigger] s.apply_relations(
                Event::Unfollow { from, to },
            ).users[u] == s.users[u],
        forall|u: u32|
            #![trigger s.apply_relations(Event::Unfollow { from, to }).users[u]]
            s.users.contains_key(u) ==> s.apply_relations(Event::Unfollow { from, to }).users[u].blocked
                == s.users[u].blocked && s.apply_relations(
                Event::Unfollow { from, to },
            ).users[u].await_messages == s.users[u].await_messages,
{
    assert(s.apply_relations(Event::Unfollow { from, to }).users.dom() =~= s.users.dom());
}

/// A block by a user `from` adds `to` to the black list of `from` and changes
/// nothing else; a block by an unknown user changes nothing. No one receives
/// a block.
pub proof fn lemma_block_effect(s: UsersView, from: u32, to: u32)
    ensures
        s.recipients(Event::Block { from, to }) == Set::<u32>::empty(),
        s.apply_relations(Event::Block { from, to }).users.dom() == s.users.dom(),
        s.users.contains_key(from) ==> s.apply_relations(Event::Block { from, to }).users[from]
            == (UserView { blocked: s.users[from].blocked.insert(to), ..s.users[from] }),
        !s.users.contains_key(from) ==> s.apply_relations(Event::Block { from, to }).users
            == s.users,
        forall|u: u32|
            s.users.contains_key(u) && u != from ==> #[trigger] s.apply_relations(
                Event::Block { from, to },
            ).users[u] == s.users[u],
{
    assert(s.apply_relations(Event::Block { from, to }).users.dom() =~= s.users.dom());
    assert(s.recipients(Event::Block { from, to }) =~= Set::<u32>::empty());
}

/// Private messages and status updates change no follower set, no black list
/// and no user: only messages move.
pub proof fn lemma_messages_change_no_relation(s: UsersView, e: Event)
    requires
        e is PrivateMessage || e is StatusUpdate,
    ensures
        s.apply_relations(e) == s,
{
    assert(s.apply_relations(e).users =~= s.users);
}

/// A private message is for its target alone: it reaches `to` exactly when
/// `to` is a user that has not blocked `from`.
pub proof fn lemma_private_message_recipients(s: UsersView, from: u32, to: u32, u: u32)
    ensures
        s.recipients(Event::PrivateMessage { from, to }).contains(u) <==> (u == to
            && s.users.contains_key(to) && !s.users[to].blocked.contains(from)),
{
}

/// A follow or an unfollow reaches its target alone, exactly when the target
/// is a user that has not blocked the actor.
pub proof fn lemma_follow_recipients(s: UsersView, from: u32, to: u32, u: u32)
    ensures
        s.recipients(Event::Follow { from, to }).contains(u) <==> (u == to
            && s.users.contains_key(to) && !s.users[to].blocked.contains(from)),
        s.recipients(Event::Unfollow { from, to }).contains(u) <==> (u == to
            && s.users.contains_key(to) && !s.users[to].blocked.contains(from)),
{
}

/// A status update of `from` reaches exactly the followers `f` of `from` that
/// have not blocked `from` (a follower that is not a user blocks no one);
/// the black list of `from` itself plays no part.
pub proof fn lemma_status_recipients(s: UsersView, from: u32, f: u32)
    ensures
        s.recipients(Event::StatusUpdate { from }).contains(f) <==> (s.users.contains_key(from)
            && s.users[from].followers.contains(f) && !(s.users.contains_key(f)
            && s.users[f].blocked.contains(from))),
{
}

/// A message that is not a block goes, for each user, either at once to its
/// connected client or into its waiting messages, never both; users that are
/// not recipients get nothing.
pub proof fn lemma_message_routing(s: UsersView, e: Event, msg: String, u: u32)
    ensures
        s.sent_now(e).contains(u) <==> (s.recipients(e).contains(u) && s.peers.contains(u)),
        s.kept_for_later(e).contains(u) <==> (s.recipients(e).contains(u) && !s.peers.contains(
            u,
        )),
        s.users.contains_key(u) ==> s.update(e, msg).users[u].await_messages == if s.kept_for_later(
            e,
        ).contains(u) {
            s.users[u].await_messages.push(msg)
        } else {
            s.users[u].await_messages
        },
{
    if s.users.contains_key(u) {
        match e {
            Event::Follow { from, to } => lemma_follow_effect(s, from, to),
            Event::Unfollow { from, to } => lemma_unfollow_effect(s, from, to),
            Event::Block { from, to } => lemma_block_effect(s, from, to),
            _ => lemma_messages_change_no_relation(s, e),
        }
    }
}

} // verus!
