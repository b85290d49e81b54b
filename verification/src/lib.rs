//! Tracks how long each user spends in each reported activity.
//!
//! A stream of presence signals ("playing `name` since `start`" or "not
//! playing") is folded into cumulative per-user, per-activity playtime
//! totals. The core is a per-user session state machine: at most one live
//! session per user, opened on a "playing" signal, closed (and its elapsed
//! time folded into the totals) when the user stops or switches activity.
//! A summary query returns the most-played activities of a user, and admin
//! operations clear state per user or globally.
//!
//! Activity names are handled as UTF-8 byte strings, so that equality and
//! the ordering used to break ties in summaries are fully specified.

pub mod bytes;
pub mod catalog;
pub mod sessions;
pub mod accum;
pub mod summary;
pub mod tracker;

use vstd::prelude::*;

verus! {

} // verus!
