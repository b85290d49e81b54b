use playtime::tracker::{ActivityReport, PresenceSignal, Tracker};
use playtime::catalog::Catalog;
use playtime::sessions::{SessionData, SessionStore};
use playtime::accum::Accumulator;

fn playing(user_id: u64, name: &str, start: i64) -> PresenceSignal {
    PresenceSignal {
        user_id,
        activity: Some(ActivityReport { name: name.as_bytes().to_vec(), start_time: start }),
    }
}

fn stopped(user_id: u64) -> PresenceSignal {
    PresenceSignal { user_id, activity: None }
}

#[test]
fn chess_session_accumulates_fifty_then_eighty() {
    let mut t = Tracker::new();
    t.handle_signal(&playing(42, "Chess", 1000), 1000);
    t.handle_signal(&stopped(42), 1050);
    let s = t.get_summary(42, 10);
    assert_eq!(s.len(), 1);
    assert_eq!(s[0].name, b"Chess".to_vec());
    assert_eq!(s[0].total_seconds, 50);
    t.handle_signal(&playing(42, "Chess", 2000), 2000);
    t.handle_signal(&stopped(42), 2030);
    let s = t.get_summary(42, 10);
    assert_eq!(s.len(), 1);
    assert_eq!(s[0].total_seconds, 80);
}

#[test]
fn duplicate_playing_signal_is_idempotent() {
    let mut t = Tracker::new();
    t.handle_signal(&playing(7, "Go", 100), 100);
    t.handle_signal(&playing(7, "Go", 100), 150);
    let live = t.live_session(7).unwrap();
    assert_eq!(live.start_time, 100);
    t.handle_signal(&stopped(7), 200);
    let s = t.get_summary(7, 10);
    assert_eq!(s.len(), 1);
    assert_eq!(s[0].total_seconds, 100);
    assert!(t.live_session(7).is_none());
}

#[test]
fn switching_games_closes_then_opens() {
    let mut t = Tracker::new();
    t.handle_signal(&playing(1, "Chess", 1000), 1000);
    t.handle_signal(&playing(1, "Go", 1300), 1300);
    let live = t.live_session(1).unwrap();
    assert_eq!(live.start_time, 1300);
    let s = t.get_summary(1, 10);
    assert_eq!(s.len(), 1);
    assert_eq!(s[0].name, b"Chess".to_vec());
    assert_eq!(s[0].total_seconds, 300);
}

#[test]
fn reset_all_empties_summary() {
    let mut t = Tracker::new();
    t.handle_signal(&playing(42, "Chess", 0), 0);
    t.handle_signal(&stopped(42), 10);
    t.reset_all();
    let s = t.get_summary(42, 10);
    assert!(s.is_empty());
}

#[test]
fn future_start_time_clamps_to_zero() {
    let mut t = Tracker::new();
    t.handle_signal(&playing(5, "Chess", 5000), 5000);
    t.handle_signal(&stopped(5), 4000);
    let s = t.get_summary(5, 10);
    assert_eq!(s.len(), 1);
    assert_eq!(s[0].total_seconds, 0);
}

#[test]
fn reset_user_leaves_others_untouched() {
    let mut t = Tracker::new();
    t.handle_signal(&playing(1, "Chess", 0), 0);
    t.handle_signal(&stopped(1), 10);
    t.handle_signal(&playing(2, "Chess", 0), 0);
    t.handle_signal(&stopped(2), 20);
    t.reset_user(1);
    assert!(t.get_summary(1, 10).is_empty());
    let s = t.get_summary(2, 10);
    assert_eq!(s.len(), 1);
    assert_eq!(s[0].total_seconds, 20);
}

#[test]
fn hard_reset_drops_everything() {
    let mut t = Tracker::new();
    t.handle_signal(&playing(3, "Chess", 0), 0);
    t.handle_signal(&stopped(3), 30);
    t.hard_reset();
    assert!(t.get_summary(3, 10).is_empty());
    assert!(t.live_session(3).is_none());
}

#[test]
fn summary_sorts_and_limits() {
    let mut t = Tracker::new();
    t.handle_signal(&playing(9, "Alpha", 0), 0);
    t.handle_signal(&stopped(9), 100);
    t.handle_signal(&playing(9, "Beta", 200), 200);
    t.handle_signal(&stopped(9), 500);
    t.handle_signal(&playing(9, "Gamma", 600), 600);
    t.handle_signal(&stopped(9), 700);
    let s = t.get_summary(9, 10);
    assert_eq!(s.len(), 3);
    assert_eq!(s[0].name, b"Beta".to_vec());
    assert_eq!(s[0].total_seconds, 300);
    assert_eq!(s[1].name, b"Alpha".to_vec());
    assert_eq!(s[1].total_seconds, 100);
    assert_eq!(s[2].name, b"Gamma".to_vec());
    assert_eq!(s[2].total_seconds, 100);
    let top2 = t.get_summary(9, 2);
    assert_eq!(top2.len(), 2);
    assert_eq!(top2[0].name, b"Beta".to_vec());
    assert_eq!(top2[1].name, b"Alpha".to_vec());
}

#[test]
fn catalog_assigns_stable_ids() {
    let mut c = Catalog::new();
    let a = c.ensure_activity(&b"Chess".to_vec());
    let b = c.ensure_activity(&b"Go".to_vec());
    let a2 = c.ensure_activity(&b"Chess".to_vec());
    assert_eq!(a, a2);
    assert_ne!(a, b);
    assert_eq!(c.lookup(&b"Go".to_vec()), Some(b));
    assert_eq!(c.lookup(&b"Shogi".to_vec()), None);
    assert_eq!(c.name_of(a), b"Chess".to_vec());
}

#[test]
fn session_store_holds_one_session_per_user() {
    let mut st = SessionStore::new();
    assert!(st.open_session(1, SessionData { activity_id: 0, start_time: 5 }).is_ok());
    assert!(st.open_session(1, SessionData { activity_id: 1, start_time: 9 }).is_err());
    let s = st.get_live_session(1).unwrap();
    assert_eq!(s.activity_id, 0);
    assert_eq!(s.start_time, 5);
    let closed = st.close_session(1).unwrap();
    assert_eq!(closed.start_time, 5);
    assert!(st.close_session(1).is_none());
}

#[test]
fn accumulator_rejects_negative_durations() {
    let mut a = Accumulator::new();
    assert!(a.add_playtime(1, 0, 30).is_ok());
    assert!(a.add_playtime(1, 0, -5).is_err());
    assert!(a.add_playtime(1, 0, 12).is_ok());
    let v = a.entries_vec(1);
    assert_eq!(v.len(), 1);
    assert_eq!(v[0].total, 42);
}

#[test]
fn accumulator_saturates_at_max() {
    let mut a = Accumulator::new();
    assert!(a.add_playtime(1, 0, i64::MAX - 1).is_ok());
    assert!(a.add_playtime(1, 0, i64::MAX - 1).is_ok());
    let v = a.entries_vec(1);
    assert_eq!(v[0].total, i64::MAX);
}
