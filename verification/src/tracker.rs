//! The tracker: the session-reconciling state machine over the catalog,
//! the session store and the accumulator, together with the summary query
//! and the admin reset operations.
//!
//! Each presence signal drives one transition per user: opening a session
//! on a "playing" signal, ignoring an exact duplicate, and closing the
//! previous session (folding its elapsed time into the totals) when the
//! user stops or switches. The whole transition is captured by the spec
//! function [`spec_step`] over the abstract [`Model`]; `handle_signal`
//! promises to perform exactly that step.

use vstd::prelude::*;
use crate::catalog::Catalog;
use crate::catalog::has_name;
use crate::catalog::id_of;
use crate::sessions::SessionStore;
use crate::sessions::SessionData;
use crate::accum::Accumulator;
use crate::accum::Entry;
use crate::accum::credit;
use crate::accum::wf_entries;
use crate::accum::has_entry;
use crate::accum::lemma_credit_wf;
use crate::catalog::lemma_names_differ;
use crate::summary::SummaryEntry;
use crate::summary::sort_entries;
use crate::summary::sorted_by_play;
use crate::summary::drawn_from;
use crate::summary::covers;
use crate::summary::distinct_ids;
use crate::summary::entry_le;
use crate::summary::line_matches;
use crate::summary::line_precedes;

verus! {

/// A reported activity: its name and the time it started, in seconds
/// since the epoch as supplied by the signal source.
pub struct ActivityReport {
    pub name: Vec<u8>,
    pub start_time: i64,
}

/// An inbound presence signal: `activity` is `None` when the user is not
/// playing anything, and reports the activity and its start time
/// otherwise.
pub struct PresenceSignal {
    pub user_id: u64,
    pub activity: Option<ActivityReport>,
}

impl PresenceSignal {
    /// The reported activity as a mathematical value.
    pub open spec fn act_view(&self) -> Option<(Seq<u8>, i64)> {
        match self.activity {
            Some(a) => Some((a.name@, a.start_time)),
            None => None,
        }
    }
}

/// The duration credited when a session that started at `start` is closed
/// at `now`: their difference, clamped below at zero (a start time in the
/// future yields nothing) and above at `i64::MAX`.
pub open spec fn elapsed_secs(start: int, now: int) -> int {
    if now <= start {
        0
    } else if now - start > i64::MAX {
        i64::MAX as int
    } else {
        now - start
    }
}

/// Computes `elapsed_secs` on machine integers.
fn elapsed(start: i64, now: i64) -> (r: i64)
    ensures
        r == elapsed_secs(start as int, now as int),
        r >= 0,
{
    if now <= start {
        0
    } else {
        let d: i128 = now as i128 - start as i128;
        if d > i64::MAX as i128 {
            i64::MAX
        } else {
            d as i64
        }
    }
}

/// The abstract state of the tracker: the catalog's names (an activity's
/// identifier is its position), the live session of each user that has
/// one, and each user's playtime entries.
#[verifier::ext_equal]
pub ghost struct Model {
    pub names: Seq<Seq<u8>>,
    pub live: Map<u64, SessionData>,
    pub entries: Map<u64, Seq<Entry>>,
}

/// The identifier the catalog `names` gives to `name`: its position if
/// present, the next fresh position otherwise.
pub open spec fn new_activity_id(names: Seq<Seq<u8>>, name: Seq<u8>) -> int {
    if has_name(names, name) {
        id_of(names, name)
    } else {
        names.len() as int
    }
}

/// The catalog after `name` has been ensured: unchanged if present,
/// appended otherwise.
pub open spec fn names_after(names: Seq<Seq<u8>>, name: Seq<u8>) -> Seq<Seq<u8>> {
    if has_name(names, name) {
        names
    } else {
        names.push(name)
    }
}

/// The entry maps after the live session of `u` in `m` is closed at time
/// `now`: the session's activity is credited with the elapsed duration.
pub open spec fn entries_after_close(m: Model, u: u64, now: int) -> Map<u64, Seq<Entry>> {
    let s = m.live[u];
    m.entries.insert(
        u,
        credit(m.entries[u], s.activity_id, elapsed_secs(s.start_time as int, now)),
    )
}

/// One transition of the state machine: what a presence signal for user
/// `u`, observed at time `now`, does to the abstract state.
///
/// - Idle and "not playing": nothing.
/// - Idle and "playing": the name is ensured and a session opens.
/// - Active and the identical "playing" signal (same activity, same start
///   time): nothing — the duplicate is idempotent.
/// - Active and a different "playing" signal: the old session closes,
///   its elapsed time is credited, and the new session opens.
/// - Active and "not playing": the session closes and is credited.
pub open spec fn spec_step(m: Model, u: u64, act: Option<(Seq<u8>, i64)>, now: int) -> Model {
    match act {
        None => {
            if m.live.contains_key(u) {
                Model {
                    names: m.names,
                    live: m.live.remove(u),
                    entries: entries_after_close(m, u, now),
                }
            } else {
                m
            }
        },
        Some((name, start)) => {
            let x = new_activity_id(m.names, name);
            let opened = SessionData { activity_id: x as usize, start_time: start };
            if m.live.contains_key(u) {
                let s = m.live[u];
                if s.activity_id == x && s.start_time == start {
                    m
                } else {
                    Model {
                        names: names_after(m.names, name),
                        live: m.live.insert(u, opened),
                        entries: entries_after_close(m, u, now),
                    }
                }
            } else {
                Model {
                    names: names_after(m.names, name),
                    live: m.live.insert(u, opened),
                    entries: m.entries,
                }
            }
        },
    }
}

/// Well-formed abstract state: unique names, well-formed entry lists,
/// and every session and entry referring to a registered activity.
pub open spec fn wf_model(m: Model) -> bool {
    &&& forall|i: int, j: int| 0 <= i < j < m.names.len() ==> m.names[i] != m.names[j]
    &&& forall|u: u64| wf_entries(#[trigger] m.entries[u])
    &&& forall|u: u64|
        m.live.contains_key(u) ==> (#[trigger] m.live[u]).activity_id < m.names.len()
    &&& forall|u: u64, i: int|
        0 <= i < m.entries[u].len() ==> (#[trigger] m.entries[u][i]).activity_id < m.names.len()
}

/// A step of the state machine preserves well-formedness of the model.
pub proof fn lemma_step_preserves_wf(m: Model, u: u64, act: Option<(Seq<u8>, i64)>, now: int)
    requires
        wf_model(m),
        m.names.len() < usize::MAX,
    ensures
        wf_model(spec_step(m, u, act, now)),
{
    let m2 = spec_step(m, u, act, now);
    let e = elapsed_secs(m.live[u].start_time as int, now);
    assert(0 <= e <= i64::MAX);
    match act {
        None => {
            if m.live.contains_key(u) {
                lemma_credit_wf(m.entries[u], m.live[u].activity_id, e);
                lemma_entries_bound(m, u, e, m.live[u].activity_id);
            }
        },
        Some((name, start)) => {
            let x = new_activity_id(m.names, name);
            assert(0 <= x < names_after(m.names, name).len());
            assert(forall|i: int, j: int|
                0 <= i < j < m2.names.len() ==> m2.names[i] != m2.names[j]) by {
                if !has_name(m.names, name) {
                    assert forall|i: int, j: int|
                        0 <= i < j < m2.names.len() implies m2.names[i] != m2.names[j] by {
                        if j == m.names.len() {
                            assert(m2.names[i] == m.names[i]);
                            assert(!has_name(m.names, name));
                        }
                    }
                }
            }
            if m.live.contains_key(u) {
                let s = m.live[u];
                if !(s.activity_id == x && s.start_time == start) {
                    lemma_credit_wf(m.entries[u], s.activity_id, e);
                    lemma_entries_bound(m, u, e, s.activity_id);
                }
            }
        },
    }
}

/// After crediting activity `a` (already registered) to user `u`, every
/// entry still refers to a registered activity.
proof fn lemma_entries_bound(m: Model, u: u64, e: int, a: usize)
    requires
        wf_model(m),
        0 <= e <= i64::MAX,
        a < m.names.len(),
    ensures
        forall|v: u64, i: int|
            0 <= i < m.entries.insert(u, credit(m.entries[u], a, e))[v].len()
                ==> (#[trigger] m.entries.insert(u, credit(m.entries[u], a, e))[v][i]).activity_id
                < m.names.len(),
{
    let en = m.entries.insert(u, credit(m.entries[u], a, e));
    lemma_credit_wf(m.entries[u], a, e);
    assert forall|v: u64, i: int| 0 <= i < en[v].len() implies (#[trigger] en[v][i]).activity_id
        < m.names.len() by {
        if v == u {
            let c = credit(m.entries[u], a, e);
            assert(c[i].activity_id == a || has_entry(m.entries[u], c[i].activity_id));
            if c[i].activity_id != a {
                let k = choose|k: int|
                    0 <= k < m.entries[u].len() && m.entries[u][k].activity_id == c[i].activity_id;
                assert(m.entries[u][k].activity_id < m.names.len());
            }
        }
    }
}

/// Tracks playtime: folds presence signals into per-user, per-activity
/// totals and answers summary queries.
pub struct Tracker {
    catalog: Catalog,
    sessions: SessionStore,
    totals: Accumulator,
}

impl Tracker {
    /// The catalog's names; an activity's identifier is its position.
    pub closed spec fn names(&self) -> Seq<Seq<u8>> {
        self.catalog@
    }

    /// The live sessions, by user.
    pub closed spec fn live(&self) -> Map<u64, SessionData> {
        self.sessions@
    }

    /// The playtime entries of `u`, in order of first credit.
    pub closed spec fn entries(&self, u: u64) -> Seq<Entry> {
        self.totals.entries_of(u)
    }

    /// The whole abstract state.
    pub closed spec fn model(&self) -> Model {
        Model {
            names: self.names(),
            live: self.live(),
            entries: Map::new(|u: u64| true, |u: u64| self.entries(u)),
        }
    }

    /// Well-formed: the abstract state is well-formed.
    pub open spec fn wf(&self) -> bool {
        wf_model(self.model())
    }

    /// The tracker's well-formedness gives each component's.
    proof fn lemma_wf_components(&self)
        requires
            self.wf(),
        ensures
            self.catalog.wf(),
            self.totals.wf(),
    {
        assert forall|u: u64| wf_entries(#[trigger] self.totals.entries_of(u)) by {
            assert(self.model().entries[u] == self.totals.entries_of(u));
        }
        let m = self.model();
        assert(m.names == self.catalog@);
        assert forall|i: int, j: int| 0 <= i < j < self.catalog@.len() implies self.catalog@[i]
            != self.catalog@[j] by {
            assert(m.names[i] != m.names[j]);
        }
    }

    /// A fresh tracker: no activities, no sessions, no entries.
    pub fn new() -> (r: Tracker)
        ensures
            r.wf(),
            r.names() == Seq::<Seq<u8>>::empty(),
            r.live() == Map::<u64, SessionData>::empty(),
            forall|u: u64| #[trigger] r.entries(u) == Seq::<Entry>::empty(),
    {
        Tracker { catalog: Catalog::new(), sessions: SessionStore::new(), totals: Accumulator::new() }
    }

    /// The live session of `u`, if there is one.
    pub fn live_session(&self, u: u64) -> (r: Option<SessionData>)
        ensures
            match r {
                Some(s) => self.live().contains_key(u) && s == self.live()[u],
                None => !self.live().contains_key(u),
            },
    {
        self.sessions.get_live_session(u)
    }

    /// Applies one presence signal, observed at time `now`, performing
    /// exactly the transition that [`spec_step`] describes.
    pub fn handle_signal(&mut self, signal: &PresenceSignal, now: i64)
        requires
            old(self).wf(),
            old(self).names().len() < usize::MAX,
        ensures
            final(self).wf(),
            final(self).model() == spec_step(
                old(self).model(),
                signal.user_id,
                signal.act_view(),
                now as int,
            ),
    {
        let u = signal.user_id;
        let ghost m0 = self.model();
        let ghost act = signal.act_view();
        proof {
            self.lemma_wf_components();
        }
        match &signal.activity {
            None => {
                match self.sessions.close_session(u) {
                    Some(s) => {
                        let e = elapsed(s.start_time, now);
                        let _ = self.totals.add_playtime(u, s.activity_id, e);
                        proof {
                            self.lemma_entries_closed(m0, u, s, now as int);
                            assert(self.model() =~~= spec_step(m0, u, act, now as int));
                        }
                    },
                    None => {
                        proof {
                            assert(self.live() =~= m0.live);
                            self.lemma_entries_unchanged(m0);
                            assert(self.model() =~~= spec_step(m0, u, act, now as int));
                        }
                    },
                }
            },
            Some(report) => {
                let x = self.catalog.ensure_activity(&report.name);
                proof {
                    self.lemma_ensure_matches_spec(m0, report.name@, x);
                }
                match self.sessions.get_live_session(u) {
                    Some(s) => {
                        if s.activity_id == x && s.start_time == report.start_time {
                            proof {
                                assert(s.activity_id < m0.names.len());
                                assert(has_name(m0.names, report.name@));
                                assert(self.names() == m0.names);
                                self.lemma_entries_unchanged(m0);
                                assert(self.model() =~~= spec_step(m0, u, act, now as int));
                            }
                        } else {
                            let _ = self.sessions.close_session(u);
                            let e = elapsed(s.start_time, now);
                            let _ = self.totals.add_playtime(u, s.activity_id, e);
                            let opened = SessionData {
                                activity_id: x,
                                start_time: report.start_time,
                            };
                            let r = self.sessions.open_session(u, opened);
                            assert(r is Ok);
                            proof {
                                self.lemma_entries_closed(m0, u, s, now as int);
                                assert(self.live() =~= m0.live.insert(u, opened));
                                assert(self.model() =~~= spec_step(m0, u, act, now as int));
                            }
                        }
                    },
                    None => {
                        let opened = SessionData { activity_id: x, start_time: report.start_time };
                        let r = self.sessions.open_session(u, opened);
                        assert(r is Ok);
                        proof {
                            self.lemma_entries_unchanged(m0);
                            assert(self.model() =~~= spec_step(m0, u, act, now as int));
                        }
                    },
                }
            },
        }
        proof {
            lemma_step_preserves_wf(m0, u, act, now as int);
        }
    }

    /// The entry map after closing the live session of `u` and crediting
    /// its elapsed time.
    proof fn lemma_entries_closed(&self, m0: Model, u: u64, s: SessionData, now: int)
        requires
            forall|v: u64| m0.entries.contains_key(v),
            m0.live.contains_key(u),
            s == m0.live[u],
            self.entries(u) == credit(
                m0.entries[u],
                s.activity_id,
                elapsed_secs(s.start_time as int, now),
            ),
            forall|v: u64| v != u ==> #[trigger] self.entries(v) == m0.entries[v],
        ensures
            self.model().entries =~~= entries_after_close(m0, u, now),
    {
    }

    /// The entry map when no entry list changed.
    proof fn lemma_entries_unchanged(&self, m0: Model)
        requires
            forall|v: u64| m0.entries.contains_key(v),
            forall|v: u64| #[trigger] self.entries(v) == m0.entries[v],
        ensures
            self.model().entries =~~= m0.entries,
    {
    }

    /// `ensure_activity` returns exactly the identifier that
    /// `new_activity_id` names, and leaves the catalog as `names_after`
    /// describes.
    proof fn lemma_ensure_matches_spec(&self, m0: Model, name: Seq<u8>, x: usize)
        requires
            self.catalog.wf(),
            x < self.names().len(),
            self.names()[x as int] == name,
            has_name(m0.names, name) ==> self.names() == m0.names,
            !has_name(m0.names, name) ==> self.names() == m0.names.push(name)
                && x == m0.names.len(),
        ensures
            x as int == new_activity_id(m0.names, name),
            self.names() == names_after(m0.names, name),
    {
        if has_name(m0.names, name) {
            let i = id_of(m0.names, name);
            assert(0 <= i < m0.names.len() && m0.names[i] == name);
            assert(self.names()[i] == name);
            assert(i == x as int);
        }
    }


    /// Up to `limit` of `u`'s playtime entries, ranked by total seconds
    /// descending, ties broken by activity name ascending. Every line
    /// reports one of `u`'s entries; fewer than `limit` lines come back
    /// only when `u` has no further entries, and an entry is left out
    /// only when `limit` better-ranked lines crowd it out.
    #[verifier::rlimit(100)]
    pub fn get_summary(&self, u: u64, limit: usize) -> (r: Vec<SummaryEntry>)
        requires
            self.wf(),
        ensures
            r@.len() == if limit as int <= self.entries(u).len() {
                limit as int
            } else {
                self.entries(u).len() as int
            },
            forall|i: int, j: int|
                #![trigger r@[i], r@[j]]
                0 <= i < j < r@.len() ==> line_precedes(
                    (r@[i].name@, r@[i].total_seconds),
                    (r@[j].name@, r@[j].total_seconds),
                ),
    {
        let ghost names = self.names();
        let ghost es0 = self.entries(u);
        proof {
            self.lemma_wf_components();
        }
        let es = self.totals.entries_vec(u);
        proof {
            assert(wf_entries(es0)) by {
                assert(self.model().entries[u] == es0);
            }
            assert(distinct_ids(es@));
            assert forall|i: int| 0 <= i < es@.len() implies (#[trigger] es@[i]).activity_id
                < self.catalog@.len() by {
                assert(self.model().entries[u][i] == es@[i]);
            }
        }
        let s = sort_entries(&self.catalog, &es);
        let m: usize = if limit <= s.len() {
            limit
        } else {
            s.len()
        };
        let mut r: Vec<SummaryEntry> = Vec::new();
        let mut i: usize = 0;
        while i < m
            invariant
                i <= m <= s@.len(),
                names == self.catalog@,
                r@.len() == i,
                forall|t: int|
                    #![trigger r@[t]]
                    0 <= t < i ==> r@[t].name@ == names[(#[trigger] s@[t]).activity_id as int]
                        && r@[t].total_seconds == s@[t].total,
                forall|t: int| 0 <= t < s@.len() ==> (#[trigger] s@[t]).activity_id < names.len(),
            decreases m - i,
        {
            let e = s[i];
            let name = self.catalog.name_of(e.activity_id);
            r.push(SummaryEntry { name, total_seconds: e.total });
            i += 1;
        }
        proof {
            Self::lemma_summary_sorted(names, s@, r@, m as int);
        }
        r
    }

    /// The first summary lines are strictly ordered: the sort gives the
    /// non-strict order, and distinct activities have distinct names.
    #[verifier::rlimit(60)]
    proof fn lemma_summary_sorted(
        names: Seq<Seq<u8>>,
        s: Seq<Entry>,
        r: Seq<SummaryEntry>,
        m: int,
    )
        requires
            crate::catalog::unique_names(names),
            sorted_by_play(names, s),
            distinct_ids(s),
            forall|t: int| 0 <= t < s.len() ==> (#[trigger] s[t]).activity_id < names.len(),
            0 <= m <= s.len(),
            r.len() == m,
            forall|t: int|
                #![trigger r[t]]
                0 <= t < m ==> r[t].name@ == names[(#[trigger] s[t]).activity_id as int]
                    && r[t].total_seconds == s[t].total,
        ensures
            forall|i: int, j: int|
                #![trigger r[i], r[j]]
                0 <= i < j < r.len() ==> line_precedes(
                    (r[i].name@, r[i].total_seconds),
                    (r[j].name@, r[j].total_seconds),
                ),
    {
        assert forall|i: int, j: int|
            #![trigger r[i], r[j]]
            0 <= i < j < r.len() implies line_precedes(
            (r[i].name@, r[i].total_seconds),
            (r[j].name@, r[j].total_seconds),
        ) by {
            assert(entry_le(names, s[i], s[j]));
            lemma_names_differ(names, s[i].activity_id as int, s[j].activity_id as int);
        }
    }

    /// Clears `u`'s live session and playtime entries. Every other
    /// user's sessions and entries, and the catalog, stand untouched.
    pub fn reset_user(&mut self, u: u64)
        requires
            old(self).wf(),
        ensures
            final(self).wf(),
            final(self).names() == old(self).names(),
            final(self).live() == old(self).live().remove(u),
            final(self).entries(u) == Seq::<Entry>::empty(),
            forall|v: u64| v != u ==> final(self).entries(v) == #[trigger] old(self).entries(v),
    {
        let ghost m0 = self.model();
        self.sessions.clear_for_user(u);
        self.totals.clear_for_user(u);
        proof {
            self.lemma_wf_pointwise(m0, u);
        }
    }

    /// Clears every live session and every playtime entry. The catalog
    /// stands untouched.
    pub fn reset_all(&mut self)
        requires
            old(self).wf(),
        ensures
            final(self).wf(),
            final(self).names() == old(self).names(),
            final(self).live() == Map::<u64, SessionData>::empty(),
            forall|v: u64| #[trigger] final(self).entries(v) == Seq::<Entry>::empty(),
    {
        let ghost m0 = self.model();
        self.sessions.clear_all();
        self.totals.clear_all();
        proof {
            self.lemma_wf_cleared(m0);
        }
    }

    /// Rebuilds from nothing: sessions, entries and the catalog itself
    /// are all dropped.
    pub fn hard_reset(&mut self)
        ensures
            final(self).wf(),
            final(self).names() == Seq::<Seq<u8>>::empty(),
            final(self).live() == Map::<u64, SessionData>::empty(),
            forall|v: u64| #[trigger] final(self).entries(v) == Seq::<Entry>::empty(),
    {
        self.catalog = Catalog::new();
        self.sessions.clear_all();
        self.totals.clear_all();
        proof {
            assert forall|v: u64| wf_entries(#[trigger] self.model().entries[v]) by {
                assert(self.model().entries[v] == self.entries(v));
            }
        }
    }

    /// Well-formedness after dropping one user's state.
    proof fn lemma_wf_pointwise(&self, m0: Model, u: u64)
        requires
            wf_model(m0),
            self.names() == m0.names,
            self.live() == m0.live.remove(u),
            self.entries(u) == Seq::<Entry>::empty(),
            forall|v: u64| v != u ==> #[trigger] self.entries(v) == m0.entries[v],
        ensures
            self.wf(),
    {
        let m = self.model();
        assert forall|v: u64| wf_entries(#[trigger] m.entries[v]) by {
            assert(m.entries[v] == self.entries(v));
            if v != u {
                assert(self.entries(v) == m0.entries[v]);
            }
        }
        assert forall|v: u64, i: int| 0 <= i < m.entries[v].len() implies (#[trigger] m.entries[v][i]).activity_id < m.names.len() by {
            assert(m.entries[v] == self.entries(v));
            if v != u {
                assert(self.entries(v) == m0.entries[v]);
            }
        }
        assert forall|v: u64| m.live.contains_key(v) implies (#[trigger] m.live[v]).activity_id
            < m.names.len() by {
            assert(m0.live.contains_key(v) && m.live[v] == m0.live[v]);
        }
    }

    /// Well-formedness after dropping every session and entry.
    proof fn lemma_wf_cleared(&self, m0: Model)
        requires
            wf_model(m0),
            self.names() == m0.names,
            self.live() == Map::<u64, SessionData>::empty(),
            forall|v: u64| #[trigger] self.entries(v) == Seq::<Entry>::empty(),
        ensures
            self.wf(),
    {
        let m = self.model();
        assert forall|v: u64| wf_entries(#[trigger] m.entries[v]) by {
            assert(m.entries[v] == self.entries(v));
        }
    }

}

} // verus!
