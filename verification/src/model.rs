//! The abstract model of the registry: a map from names to visit statistics,
//! and the transition each operation performs on it.

use vstd::prelude::*;

verus! {

/// Abstract registry state: each recorded name maps to its visit count and
/// the timestamp of its most recent visit.
pub type Stats = Map<Seq<char>, (nat, u64)>;

/// Number of visits recorded for `name`; zero when the name was never seen.
pub open spec fn visit_count(m: Stats, name: Seq<char>) -> nat {
    if m.contains_key(name) {
        m[name].0
    } else {
        0
    }
}

/// Time `name` was last seen, or `None` when it was never seen.
pub open spec fn last_seen_of(m: Stats, name: Seq<char>) -> Option<u64> {
    if m.contains_key(name) {
        Some(m[name].1)
    } else {
        None
    }
}

/// One visit: a fresh name enters with count 1, a known name's count grows
/// by exactly 1; either way the name's last-seen time becomes `now`.
pub open spec fn visit_step(m: Stats, name: Seq<char>, now: u64) -> Stats {
    m.insert(name, (visit_count(m, name) + 1, now))
}

/// A run of visits to one name, at the given times, applied in order.
pub open spec fn visit_run(m: Stats, name: Seq<char>, times: Seq<u64>) -> Stats
    decreases times.len(),
{
    if times.len() == 0 {
        m
    } else {
        visit_step(visit_run(m, name, times.drop_last()), name, times.last())
    }
}

/// Clearing the registry: every record is removed, whatever the state was.
pub open spec fn clear_step(m: Stats) -> Stats {
    Map::empty()
}

/// A name never seen before reports no prior visits, and a visit to it
/// leaves it with count 1, so that the next visit reports one prior visit.
pub proof fn lemma_first_visit(m: Stats, name: Seq<char>, now: u64)
    requires
        !m.contains_key(name),
    ensures
        visit_count(m, name) == 0,
        last_seen_of(m, name) is None,
        visit_count(visit_step(m, name, now), name) == 1,
        last_seen_of(visit_step(m, name, now), name) == Some(now),
{
}

/// Visits are never lost: a run of visits to one name raises its count by
/// exactly the number of visits, whatever the visit times are. In
/// particular, any serialization of concurrent visits to a fresh name
/// leaves its count equal to the number of visits issued.
pub proof fn lemma_no_lost_updates(m: Stats, name: Seq<char>, times: Seq<u64>)
    ensures
        visit_count(visit_run(m, name, times), name) == visit_count(m, name) + times.len(),
    decreases times.len(),
{
    if times.len() > 0 {
        lemma_no_lost_updates(m, name, times.drop_last());
    }
}

/// In a run of visits to a fresh name, the k-th visit finds k - 1 prior
/// visits (so it reports k - 1), and leaves the stored count at k.
pub proof fn lemma_kth_visit(m: Stats, name: Seq<char>, times: Seq<u64>, k: int)
    requires
        !m.contains_key(name),
        0 < k <= times.len(),
    ensures
        visit_count(visit_run(m, name, times.take(k - 1)), name) == k - 1,
        visit_count(visit_run(m, name, times.take(k)), name) == k,
{
    lemma_no_lost_updates(m, name, times.take(k - 1));
    lemma_no_lost_updates(m, name, times.take(k));
}

/// Clearing twice in a row is the same as clearing once.
pub proof fn lemma_clear_idempotent(m: Stats)
    ensures
        clear_step(clear_step(m)) == clear_step(m),
{
}

} // verus!
