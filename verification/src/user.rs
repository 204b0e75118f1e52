//! A chat user: followers, blocked users and messages kept for later.
use std::collections::{HashSet, VecDeque};
use vstd::prelude::*;

verus! {

broadcast use vstd::std_specs::hash::group_hash_axioms;

/// The abstract state of a [`User`].
pub struct UserView {
    /// Users that follow this user.
    pub followers: Set<u32>,
    /// Users whose events this user does not want to receive.
    pub blocked: Set<u32>,
    /// Messages addressed to this user while it was not connected, oldest first.
    pub await_messages: Seq<String>,
}

impl UserView {
    /// A user with no followers, no blocks and no waiting messages.
    pub open spec fn empty() -> Self {
        UserView { followers: Set::empty(), blocked: Set::empty(), await_messages: Seq::empty() }
    }
}

/// User with followers, and black list
#[derive(Debug)]
pub struct User {
    pub followers: HashSet<u32>,
    pub blocked: HashSet<u32>,
    pub await_messages: VecDeque<String>,
}

impl View for User {
    type V = UserView;

    open spec fn view(&self) -> UserView {
        UserView {
            followers: self.followers@,
            blocked: self.blocked@,
            await_messages: self.await_messages@,
        }
    }
}

impl Default for User {
    fn default() -> (u: Self)
        ensures
            u@ == UserView::empty(),
    {
        User { followers: HashSet::new(), blocked: HashSet::new(), await_messages: VecDeque::new() }
    }
}

impl User {
    /// `id` is not on this user's black list.
    pub fn is_not_blocked(&self, id: u32) -> (r: bool)
        ensures
            r == !self@.blocked.contains(id),
    {
        !self.blocked.contains(&id)
    }
}

} // verus!
