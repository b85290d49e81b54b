//! The summary ordering: playtime entries ranked by total seconds
//! descending, ties broken by activity name ascending, and a verified
//! insertion sort under that order.

use vstd::prelude::*;
use crate::bytes::lex_le;
use crate::bytes::lemma_lex_le_total;
use crate::bytes::lemma_lex_le_transitive;
use crate::catalog::Catalog;
use crate::accum::Entry;

verus! {

/// One line of a summary: an activity's name and the total seconds
/// recorded for it.
pub struct SummaryEntry {
    pub name: Vec<u8>,
    pub total_seconds: i64,
}

/// The summary order on entries, given the catalog `names`: more total
/// seconds first; among equals, the lexicographically earlier name first.
pub open spec fn entry_le(names: Seq<Seq<u8>>, a: Entry, b: Entry) -> bool {
    a.total > b.total || (a.total == b.total && lex_le(
        names[a.activity_id as int],
        names[b.activity_id as int],
    ))
}

/// `s` is sorted under the summary order.
pub open spec fn sorted_by_play(names: Seq<Seq<u8>>, s: Seq<Entry>) -> bool {
    forall|i: int, j: int| 0 <= i < j < s.len() ==> entry_le(names, s[i], s[j])
}

/// Every element of `r` is one of the first `k` elements of `v`.
pub open spec fn drawn_from(r: Seq<Entry>, v: Seq<Entry>, k: int) -> bool {
    forall|i: int| #![trigger r[i]] 0 <= i < r.len() ==> exists|j: int| 0 <= j < k && r[i] == #[trigger] v[j]
}

/// Each of the first `k` elements of `v` occurs in `r`.
pub open spec fn covers(r: Seq<Entry>, v: Seq<Entry>, k: int) -> bool {
    forall|j: int| #![trigger v[j]] 0 <= j < k ==> exists|i: int| 0 <= i < r.len() && #[trigger] r[i] == v[j]
}

/// No two elements of `s` report the same activity.
pub open spec fn distinct_ids(s: Seq<Entry>) -> bool {
    forall|i: int, j: int|
        0 <= i < j < s.len() ==> (#[trigger] s[i]).activity_id != (#[trigger] s[j]).activity_id
}

/// Whether a summary line reports entry `e`: it carries `e`'s name (as
/// the catalog `names` gives it) and `e`'s total.
pub open spec fn line_matches(names: Seq<Seq<u8>>, line: (Seq<u8>, i64), e: Entry) -> bool {
    line.0 == names[e.activity_id as int] && line.1 == e.total
}

/// Strictly earlier in a summary: more seconds, or equal seconds and a
/// name that comes strictly earlier in dictionary order.
pub open spec fn line_precedes(a: (Seq<u8>, i64), b: (Seq<u8>, i64)) -> bool {
    a.1 > b.1 || (a.1 == b.1 && lex_le(a.0, b.0) && a.0 != b.0)
}

/// The summary order is total.
pub proof fn lemma_entry_le_total(names: Seq<Seq<u8>>, a: Entry, b: Entry)
    ensures
        entry_le(names, a, b) || entry_le(names, b, a),
{
    if a.total == b.total {
        lemma_lex_le_total(names[a.activity_id as int], names[b.activity_id as int]);
    }
}

/// The summary order is transitive.
pub proof fn lemma_entry_le_transitive(names: Seq<Seq<u8>>, a: Entry, b: Entry, c: Entry)
    requires
        entry_le(names, a, b),
        entry_le(names, b, c),
    ensures
        entry_le(names, a, c),
{
    if a.total == b.total && b.total == c.total {
        lemma_lex_le_transitive(
            names[a.activity_id as int],
            names[b.activity_id as int],
            names[c.activity_id as int],
        );
    }
}

/// The position where `e` belongs in the sorted `v`: everything before
/// it comes no later than `e`, and `e` comes no later than the entry it
/// lands on.
fn find_position(catalog: &Catalog, v: &Vec<Entry>, e: Entry) -> (p: usize)
    requires
        forall|i: int| 0 <= i < v@.len() ==> (#[trigger] v@[i]).activity_id < catalog@.len(),
        e.activity_id < catalog@.len(),
    ensures
        p <= v@.len(),
        forall|j: int| 0 <= j < p ==> entry_le(catalog@, #[trigger] v@[j], e),
        p < v@.len() ==> entry_le(catalog@, e, v@[p as int]),
{
    let ghost names = catalog@;
    let mut k: usize = 0;
    while k < v.len()
        invariant
            k <= v.len(),
            forall|i: int| 0 <= i < v@.len() ==> (#[trigger] v@[i]).activity_id < catalog@.len(),
            e.activity_id < catalog@.len(),
            names == catalog@,
            forall|j: int| 0 <= j < k ==> entry_le(names, #[trigger] v@[j], e),
        decreases v.len() - k,
    {
        let c = v[k];
        let le = if e.total > c.total {
            true
        } else if e.total < c.total {
            false
        } else {
            catalog.names_le(e.activity_id, c.activity_id)
        };
        if le {
            return k;
        }
        proof {
            lemma_entry_le_total(names, e, v@[k as int]);
        }
        k += 1;
    }
    k
}

/// Inserts `e` into the sorted `v`, keeping it sorted; the result is
/// `v` with `e` inserted at some position.
fn insert_sorted(catalog: &Catalog, v: &mut Vec<Entry>, e: Entry)
    requires
        sorted_by_play(catalog@, old(v)@),
        forall|i: int| 0 <= i < old(v)@.len() ==> (#[trigger] old(v)@[i]).activity_id < catalog@.len(),
        e.activity_id < catalog@.len(),
    ensures
        sorted_by_play(catalog@, final(v)@),
        exists|p: int| 0 <= p <= old(v)@.len() && final(v)@ == #[trigger] old(v)@.insert(p, e),
        forall|i: int| 0 <= i < final(v)@.len() ==> (#[trigger] final(v)@[i]).activity_id < catalog@.len(),
{
    let ghost names = catalog@;
    let k = find_position(catalog, v, e);
    let ghost p = k as int;
    assert(forall|j: int| p <= j < v@.len() ==> entry_le(names, e, #[trigger] v@[j])) by {
        assert forall|j: int| p <= j < v@.len() implies entry_le(names, e, #[trigger] v@[j]) by {
            if j > p {
                lemma_entry_le_transitive(names, e, v@[p], v@[j]);
            }
        }
    }
    v.insert(k, e);
    proof {
        let w = v@;
        let v0 = old(v)@;
        assert(w == v0.insert(p, e));
        assert forall|i: int, j: int| 0 <= i < j < w.len() implies entry_le(names, w[i], w[j]) by {
            assert(forall|t: int| 0 <= t < p ==> w[t] == v0[t]);
            assert(w[p] == e);
            assert(forall|t: int| p < t < w.len() ==> w[t] == v0[t - 1]);
        }
        assert forall|i: int| 0 <= i < w.len() implies (#[trigger] w[i]).activity_id
            < catalog@.len() by {
            if i != p {
                let t: int = if i < p { i } else { i - 1 };
                assert(w[i] == v0[t]);
            }
        }
    }
}

/// Sorts a user's entries under the summary order. The result holds
/// exactly the elements of `v`: it has the same length, each side's
/// elements occur in the other, and no activity occurs twice.
#[verifier::rlimit(100)]
pub fn sort_entries(catalog: &Catalog, v: &Vec<Entry>) -> (r: Vec<Entry>)
    requires
        distinct_ids(v@),
        forall|i: int| 0 <= i < v@.len() ==> (#[trigger] v@[i]).activity_id < catalog@.len(),
    ensures
        r@.len() == v@.len(),
        sorted_by_play(catalog@, r@),
        drawn_from(r@, v@, v@.len() as int),
        covers(r@, v@, v@.len() as int),
        distinct_ids(r@),
{
    let ghost names = catalog@;
    let mut r: Vec<Entry> = Vec::new();
    let mut k: usize = 0;
    while k < v.len()
        invariant
            k <= v.len(),
            r@.len() == k,
            sorted_by_play(names, r@),
            names == catalog@,
            distinct_ids(v@),
            forall|i: int| 0 <= i < v@.len() ==> (#[trigger] v@[i]).activity_id < catalog@.len(),
            drawn_from(r@, v@, k as int),
            covers(r@, v@, k as int),
            distinct_ids(r@),
            forall|i: int| 0 <= i < r@.len() ==> (#[trigger] r@[i]).activity_id < catalog@.len(),
        decreases v.len() - k,
    {
        let e = v[k];
        let ghost r0 = r@;
        insert_sorted(catalog, &mut r, e);
        proof {
            let p = choose|p: int| 0 <= p <= r0.len() && r@ == r0.insert(p, e);
            assert(r@ == r0.insert(p, v@[k as int]));
            lemma_insert_forward(v@, r0, r@, k as int, p);
            lemma_insert_backward(v@, r0, r@, k as int, p);
            lemma_insert_distinct(v@, r0, r@, k as int, p);
        }
        k += 1;
    }
    r
}

/// After inserting element `k` of `v` into `r0` at position `p`, every
/// element of the result is one of the first `k + 1` elements of `v`.
proof fn lemma_insert_forward(v: Seq<Entry>, r0: Seq<Entry>, r1: Seq<Entry>, k: int, p: int)
    requires
        0 <= k < v.len(),
        r0.len() == k,
        0 <= p <= r0.len(),
        r1 == r0.insert(p, v[k]),
        drawn_from(r0, v, k),
    ensures
        drawn_from(r1, v, k + 1),
{
    assert forall|i: int| #![trigger r1[i]] 0 <= i < r1.len() implies exists|j: int|
        0 <= j < k + 1 && r1[i] == #[trigger] v[j] by {
        if i == p {
            assert(r1[i] == v[k]);
        } else {
            let t: int = if i < p { i } else { i - 1 };
            assert(r1[i] == r0[t]);
            let j = choose|j: int| 0 <= j < k && r0[t] == v[j];
            assert(r1[i] == v[j]);
        }
    }
}

/// After the same insertion, each of the first `k + 1` elements of `v`
/// occurs in the result.
proof fn lemma_insert_backward(v: Seq<Entry>, r0: Seq<Entry>, r1: Seq<Entry>, k: int, p: int)
    requires
        0 <= k < v.len(),
        r0.len() == k,
        0 <= p <= r0.len(),
        r1 == r0.insert(p, v[k]),
        covers(r0, v, k),
    ensures
        covers(r1, v, k + 1),
{
    assert forall|j: int| #![trigger v[j]] 0 <= j < k + 1 implies exists|i: int|
        0 <= i < r1.len() && #[trigger] r1[i] == v[j] by {
        if j == k {
            assert(r1[p] == v[j]);
        } else {
            let i0 = choose|i0: int| 0 <= i0 < r0.len() && r0[i0] == v[j];
            let i: int = if i0 < p { i0 } else { i0 + 1 };
            assert(r1[i] == r0[i0]);
        }
    }
}

/// After the same insertion, no activity occurs twice in the result,
/// provided none did in `v` or in `r0`.
proof fn lemma_insert_distinct(v: Seq<Entry>, r0: Seq<Entry>, r1: Seq<Entry>, k: int, p: int)
    requires
        0 <= k < v.len(),
        r0.len() == k,
        0 <= p <= r0.len(),
        r1 == r0.insert(p, v[k]),
        distinct_ids(v),
        drawn_from(r0, v, k),
        distinct_ids(r0),
    ensures
        distinct_ids(r1),
{
    assert forall|i: int, j: int| 0 <= i < j < r1.len() implies (#[trigger] r1[i]).activity_id
        != (#[trigger] r1[j]).activity_id by {
        let ti: int = if i < p { i } else { i - 1 };
        let tj: int = if j < p { j } else { j - 1 };
        if i == p {
            assert(r1[j] == r0[tj]);
            let jj = choose|jj: int| 0 <= jj < k && r0[tj] == v[jj];
            assert(v[jj].activity_id != v[k].activity_id);
        } else if j == p {
            assert(r1[i] == r0[ti]);
            let ii = choose|ii: int| 0 <= ii < k && r0[ti] == v[ii];
            assert(v[ii].activity_id != v[k].activity_id);
        } else {
            assert(r1[i] == r0[ti] && r1[j] == r0[tj]);
        }
    }
}

} // verus!
