//! The accumulator: cumulative playtime per (user, activity) pair.
//!
//! Entries are created on the first finished session of a pair and from
//! then on only grow (saturating at `i64::MAX`), except through the admin
//! clears. A negative duration is rejected without touching any state.

use vstd::prelude::*;
use std::collections::HashMap;

verus! {

broadcast use vstd::std_specs::hash::group_hash_axioms;

/// A duration that was rejected because it was negative.
#[derive(Clone, Copy, PartialEq, Eq, Structural, Debug)]
pub struct ValidationError;

/// One playtime entry of a user: an activity and the total number of
/// seconds recorded for it so far.
#[derive(Clone, Copy, PartialEq, Eq, Structural, Debug)]
pub struct Entry {
    pub activity_id: usize,
    pub total: i64,
}

/// `total + seconds`, capped at `i64::MAX`.
pub open spec fn sat_add(total: int, seconds: int) -> int {
    if total + seconds > i64::MAX {
        i64::MAX as int
    } else {
        total + seconds
    }
}

/// Whether `s` holds an entry for activity `a`.
pub open spec fn has_entry(s: Seq<Entry>, a: usize) -> bool {
    exists|i: int| 0 <= i < s.len() && s[i].activity_id == a
}

/// The position of activity `a`'s entry in `s` (meaningful only when
/// present).
pub open spec fn entry_idx(s: Seq<Entry>, a: usize) -> int {
    choose|i: int| 0 <= i < s.len() && s[i].activity_id == a
}

/// The recorded total for activity `a` in `s`; zero if `s` has no entry
/// for it.
pub open spec fn total_of(s: Seq<Entry>, a: usize) -> int {
    if has_entry(s, a) {
        s[entry_idx(s, a)].total as int
    } else {
        0
    }
}

/// Well-formed entry list: one entry per activity, no negative total.
pub open spec fn wf_entries(s: Seq<Entry>) -> bool {
    &&& forall|i: int, j: int|
        0 <= i < j < s.len() ==> s[i].activity_id != s[j].activity_id
    &&& forall|i: int| 0 <= i < s.len() ==> s[i].total >= 0
}

/// The entry list after crediting `seconds` to activity `a`: the entry
/// for `a` grows by `seconds` (saturating), or is created with total
/// `seconds`; all other entries keep their place and value.
pub open spec fn credit(s: Seq<Entry>, a: usize, seconds: int) -> Seq<Entry> {
    if has_entry(s, a) {
        s.update(
            entry_idx(s, a),
            Entry { activity_id: a, total: sat_add(s[entry_idx(s, a)].total as int, seconds) as i64 },
        )
    } else {
        s.push(Entry { activity_id: a, total: seconds as i64 })
    }
}

/// The position of activity `a`'s entry in `v`, if there is one.
fn find_entry(v: &Vec<Entry>, a: usize) -> (r: Option<usize>)
    ensures
        match r {
            Some(i) => i < v@.len() && v@[i as int].activity_id == a,
            None => !has_entry(v@, a),
        },
{
    let mut i: usize = 0;
    while i < v.len()
        invariant
            i <= v.len(),
            forall|j: int| 0 <= j < i ==> v@[j].activity_id != a,
        decreases v.len() - i,
    {
        if v[i].activity_id == a {
            return Some(i);
        }
        i += 1;
    }
    None
}

/// Crediting a plausible duration keeps an entry list well-formed, and
/// every identifier in the result is either an old one or the credited
/// one.
pub proof fn lemma_credit_wf(s: Seq<Entry>, a: usize, seconds: int)
    requires
        wf_entries(s),
        0 <= seconds <= i64::MAX,
    ensures
        wf_entries(credit(s, a, seconds)),
        forall|i: int|
            0 <= i < credit(s, a, seconds).len() ==> (#[trigger] credit(s, a, seconds)[i]).activity_id
                == a || has_entry(s, credit(s, a, seconds)[i].activity_id),
{
    let c = credit(s, a, seconds);
    if has_entry(s, a) {
        let k = entry_idx(s, a);
        assert(0 <= k < s.len() && s[k].activity_id == a);
        assert forall|i: int| 0 <= i < c.len() implies (#[trigger] c[i]).activity_id == a
            || has_entry(s, c[i].activity_id) by {
            if i != k {
                assert(c[i] == s[i]);
                assert(has_entry(s, s[i].activity_id));
            }
        }
    } else {
        assert forall|i: int| 0 <= i < c.len() implies (#[trigger] c[i]).activity_id == a
            || has_entry(s, c[i].activity_id) by {
            if i < s.len() {
                assert(c[i] == s[i]);
                assert(has_entry(s, s[i].activity_id));
            }
        }
    }
}

/// What crediting does to the recorded totals: the credited activity's
/// total grows by the duration (saturating), every other total stands.
pub proof fn lemma_credit_total(s: Seq<Entry>, a: usize, seconds: int)
    requires
        wf_entries(s),
        0 <= seconds <= i64::MAX,
    ensures
        has_entry(credit(s, a, seconds), a),
        total_of(credit(s, a, seconds), a) == sat_add(total_of(s, a), seconds),
        forall|b: usize|
            b != a ==> #[trigger] has_entry(credit(s, a, seconds), b) == has_entry(s, b),
        forall|b: usize|
            b != a ==> #[trigger] total_of(credit(s, a, seconds), b) == total_of(s, b),
{
    let c = credit(s, a, seconds);
    if has_entry(s, a) {
        let k = entry_idx(s, a);
        assert(0 <= k < s.len() && s[k].activity_id == a);
        assert(c[k].activity_id == a);
        assert(has_entry(c, a));
        let k2 = entry_idx(c, a);
        assert(0 <= k2 < c.len() && c[k2].activity_id == a);
        lemma_credit_wf(s, a, seconds);
        assert(k2 == k);
        assert(total_of(c, a) == sat_add(total_of(s, a), seconds));
    } else {
        let k = s.len() as int;
        assert(c[k].activity_id == a);
        assert(has_entry(c, a));
        let k2 = entry_idx(c, a);
        assert(0 <= k2 < c.len() && c[k2].activity_id == a);
        lemma_credit_wf(s, a, seconds);
        assert forall|j: int| 0 <= j < c.len() && c[j].activity_id == a implies j == k by {
            if j < s.len() {
                assert(s[j].activity_id == a);
                assert(has_entry(s, a));
            }
        }
        assert(k2 == k);
        assert(total_of(c, a) == seconds);
    }
    assert forall|b: usize| b != a implies #[trigger] has_entry(c, b) == has_entry(s, b)
        && total_of(c, b) == total_of(s, b) by {
        lemma_credit_other(s, a, seconds, b);
    }
}

/// Crediting activity `a` does not touch the entry of any other activity.
proof fn lemma_credit_other(s: Seq<Entry>, a: usize, seconds: int, b: usize)
    requires
        wf_entries(s),
        b != a,
    ensures
        has_entry(credit(s, a, seconds), b) == has_entry(s, b),
        total_of(credit(s, a, seconds), b) == total_of(s, b),
{
    let c = credit(s, a, seconds);
    if has_entry(s, a) {
        let k = entry_idx(s, a);
        assert(0 <= k < s.len() && s[k].activity_id == a);
        if has_entry(s, b) {
            let j = entry_idx(s, b);
            assert(0 <= j < s.len() && s[j].activity_id == b);
            assert(j != k);
            assert(c[j] == s[j]);
            assert(has_entry(c, b));
            let j2 = entry_idx(c, b);
            assert(0 <= j2 < c.len() && c[j2].activity_id == b);
            assert(j2 != k);
            assert(c[j2] == s[j2]);
            assert(j2 == j);
        } else {
            assert forall|i: int| 0 <= i < c.len() implies c[i].activity_id != b by {
                if i != k {
                    assert(c[i] == s[i]);
                }
            }
            assert(!has_entry(c, b));
        }
    } else {
        if has_entry(s, b) {
            let j = entry_idx(s, b);
            assert(c[j] == s[j]);
            assert(has_entry(c, b));
            let j2 = entry_idx(c, b);
            assert(0 <= j2 < c.len() && c[j2].activity_id == b);
            assert(j2 < s.len());
            assert(c[j2] == s[j2]);
            assert(j2 == j);
        } else {
            assert forall|i: int| 0 <= i < c.len() implies c[i].activity_id != b by {
                if i < s.len() {
                    assert(c[i] == s[i]);
                }
            }
            assert(!has_entry(c, b));
        }
    }
}

/// Holds every user's playtime entries.
pub struct Accumulator {
    totals: HashMap<u64, Vec<Entry>>,
}

impl Accumulator {
    /// The entries recorded for `user_id`, in order of first credit.
    pub closed spec fn entries_of(&self, user_id: u64) -> Seq<Entry> {
        if self.totals@.contains_key(user_id) {
            self.totals@[user_id]@
        } else {
            Seq::<Entry>::empty()
        }
    }

    /// Well-formed: every user's entry list is well-formed.
    pub open spec fn wf(&self) -> bool {
        forall|u: u64| wf_entries(#[trigger] self.entries_of(u))
    }

    /// An empty accumulator: no user has any entry.
    pub fn new() -> (r: Accumulator)
        ensures
            forall|u: u64| #[trigger] r.entries_of(u) == Seq::<Entry>::empty(),
            r.wf(),
    {
        Accumulator { totals: HashMap::new() }
    }

    /// Credits `seconds` to the pair (`user_id`, `activity_id`): creates
    /// the entry with that total, or adds to the existing one. A negative
    /// `seconds` is rejected and nothing changes; success is owed on every
    /// other input.
    pub fn add_playtime(&mut self, user_id: u64, activity_id: usize, seconds: i64) -> (r: Result<
        (),
        ValidationError,
    >)
        requires
            old(self).wf(),
        ensures
            final(self).wf(),
            seconds < 0 ==> r is Err && forall|u: u64|
                final(self).entries_of(u) == #[trigger] old(self).entries_of(u),
            seconds >= 0 ==> {
                &&& r is Ok
                &&& forall|u: u64|
                    u != user_id ==> final(self).entries_of(u) == #[trigger] old(
                        self,
                    ).entries_of(u)
                &&& final(self).entries_of(user_id) == credit(
                    old(self).entries_of(user_id),
                    activity_id,
                    seconds as int,
                )
            },
    {
        if seconds < 0 {
            return Err(ValidationError);
        }
        let ghost s0 = self.entries_of(user_id);
        let mut v: Vec<Entry> = match self.totals.remove(&user_id) {
            Some(v) => v,
            None => Vec::new(),
        };
        assert(v@ == s0);
        match find_entry(&v, activity_id) {
            Some(i) => {
                proof {
                    assert(has_entry(s0, activity_id));
                    let k = entry_idx(s0, activity_id);
                    assert(0 <= k < s0.len() && s0[k].activity_id == activity_id);
                    assert(wf_entries(s0));
                    assert(k == i as int);
                }
                let t = v[i].total;
                let new_total: i64 = if seconds > i64::MAX - t {
                    i64::MAX
                } else {
                    t + seconds
                };
                v.set(i, Entry { activity_id, total: new_total });
            },
            None => {
                assert(!has_entry(s0, activity_id));
                v.push(Entry { activity_id, total: seconds });
            },
        }
        let ghost v1 = v@;
        self.totals.insert(user_id, v);
        proof {
            assert(self.entries_of(user_id) == v1);
            assert(v1 =~= credit(s0, activity_id, seconds as int));
            assert(forall|u: u64|
                u != user_id ==> self.entries_of(u) == #[trigger] old(self).entries_of(u));
            assert(wf_entries(self.entries_of(user_id)));
            assert forall|u: u64| wf_entries(#[trigger] self.entries_of(u)) by {
                if u != user_id {
                    assert(self.entries_of(u) == old(self).entries_of(u));
                }
            }
        }
        Ok(())
    }

    /// A copy of the entries recorded for `user_id`.
    pub fn entries_vec(&self, user_id: u64) -> (r: Vec<Entry>)
        ensures
            r@ == self.entries_of(user_id),
    {
        let mut r: Vec<Entry> = Vec::new();
        let v: &Vec<Entry> = match self.totals.get(&user_id) {
            Some(v) => v,
            None => {
                return r;
            },
        };
        let mut i: usize = 0;
        while i < v.len()
            invariant
                i <= v.len(),
                v@ == self.entries_of(user_id),
                r@ =~= v@.take(i as int),
            decreases v.len() - i,
        {
            r.push(v[i]);
            i += 1;
        }
        proof {
            assert(r@ =~= v@);
        }
        r
    }

    /// Drops every entry of `user_id`; other users keep theirs.
    pub fn clear_for_user(&mut self, user_id: u64)
        ensures
            final(self).entries_of(user_id) == Seq::<Entry>::empty(),
            forall|u: u64|
                u != user_id ==> final(self).entries_of(u) == #[trigger] old(self).entries_of(u),
    {
        let _ = self.totals.remove(&user_id);
    }

    /// Drops every entry of every user.
    pub fn clear_all(&mut self)
        ensures
            forall|u: u64| #[trigger] final(self).entries_of(u) == Seq::<Entry>::empty(),
    {
        self.totals.clear();
    }
}

} // verus!
