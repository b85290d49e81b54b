//! The session store: at most one live (unfinished) session per user,
//! recording which activity the user is in and since when.
//!
//! Its view is a map from user id to the live session's data; the
//! at-most-one-per-user invariant is the map structure itself.

use vstd::prelude::*;
use std::collections::HashMap;

verus! {

broadcast use vstd::std_specs::hash::group_hash_axioms;

/// A live session: the activity a user is in and the time it started,
/// in seconds since the epoch as reported by the signal source.
#[derive(Clone, Copy, PartialEq, Eq, Structural, Debug)]
pub struct SessionData {
    pub activity_id: usize,
    pub start_time: i64,
}

/// Holds the live sessions, at most one per user.
pub struct SessionStore {
    live: HashMap<u64, SessionData>,
}

impl SessionStore {
    pub closed spec fn view(&self) -> Map<u64, SessionData> {
        self.live@
    }

    /// An empty store: nobody has a live session.
    pub fn new() -> (r: SessionStore)
        ensures
            r@ == Map::<u64, SessionData>::empty(),
    {
        SessionStore { live: HashMap::new() }
    }

    /// The live session of `user_id`, if there is one.
    pub fn get_live_session(&self, user_id: u64) -> (r: Option<SessionData>)
        ensures
            match r {
                Some(s) => self@.contains_key(user_id) && s == self@[user_id],
                None => !self@.contains_key(user_id),
            },
    {
        match self.live.get(&user_id) {
            Some(s) => Some(*s),
            None => None,
        }
    }

    /// Opens a live session for `user_id`. Succeeds exactly when the user
    /// has no live session; on a conflict nothing changes and the caller
    /// must close or ignore first.
    pub fn open_session(&mut self, user_id: u64, data: SessionData) -> (r: Result<(), ()>)
        ensures
            old(self)@.contains_key(user_id) ==> r is Err && final(self)@ == old(self)@,
            !old(self)@.contains_key(user_id) ==> r is Ok && final(self)@ == old(self)@.insert(
                user_id,
                data,
            ),
    {
        if self.live.contains_key(&user_id) {
            Err(())
        } else {
            self.live.insert(user_id, data);
            Ok(())
        }
    }

    /// Removes and returns the live session of `user_id`, or returns
    /// `None` (changing nothing) if there is none.
    pub fn close_session(&mut self, user_id: u64) -> (r: Option<SessionData>)
        ensures
            final(self)@ == old(self)@.remove(user_id),
            match r {
                Some(s) => old(self)@.contains_key(user_id) && s == old(self)@[user_id],
                None => !old(self)@.contains_key(user_id),
            },
    {
        let r = self.live.remove(&user_id);
        proof {
            if !old(self)@.contains_key(user_id) {
                assert(final(self)@ =~= old(self)@.remove(user_id));
            }
        }
        r
    }

    /// Drops the live session of `user_id`, if any.
    pub fn clear_for_user(&mut self, user_id: u64)
        ensures
            final(self)@ == old(self)@.remove(user_id),
    {
        let _ = self.close_session(user_id);
    }

    /// Drops every live session.
    pub fn clear_all(&mut self)
        ensures
            final(self)@ == Map::<u64, SessionData>::empty(),
    {
        self.live.clear();
    }
}

} // verus!
