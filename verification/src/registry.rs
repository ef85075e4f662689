//! The visit registry: per-name visit records with the atomic
//! record-a-visit operation, top-k listing, and bulk clear.

use vstd::prelude::*;
use vstd::pervasive::VecAdditionalExecFns;
use vstd::seq_lib::group_to_multiset_ensures;

use crate::model;

verus! {

/// One entry of the registry: a name together with its visit count and the
/// time of its most recent visit.
pub struct VisitRecord {
    /// The recorded name; unique within a registry.
    pub name: String,
    /// How many times the name has been seen; at least 1.
    pub count: u64,
    /// When the name was last seen.
    pub last_seen: u64,
}

impl Clone for VisitRecord {
    fn clone(&self) -> (r: Self)
        ensures
            r == *self,
    {
        VisitRecord { name: self.name.clone(), count: self.count, last_seen: self.last_seen }
    }
}

/// The key a listing is ordered by.
#[derive(Clone, Copy, PartialEq, Eq, Structural)]
pub enum OrderBy {
    /// Most recently seen first.
    LastSeen,
    /// Most visits first.
    Visits,
}

/// The field a listing ordered by `order` compares records by.
pub open spec fn sort_key(r: VisitRecord, order: OrderBy) -> u64 {
    match order {
        OrderBy::LastSeen => r.last_seen,
        OrderBy::Visits => r.count,
    }
}

/// The records of `s` are in descending order of their sort key.
pub open spec fn sorted_desc(s: Seq<VisitRecord>, order: OrderBy) -> bool {
    forall|i: int, j: int|
        0 <= i < j < s.len() ==> sort_key(s[i], order) >= sort_key(s[j], order)
}

/// No two records of `s` carry the same name.
pub open spec fn names_unique(s: Seq<VisitRecord>) -> bool {
    forall|i: int, j: int| 0 <= i < j < s.len() ==> s[i].name@ != s[j].name@
}

/// Some record of `r` carries the name `n`.
pub open spec fn listed_name(r: Seq<VisitRecord>, n: Seq<char>) -> bool {
    exists|i: int| 0 <= i < r.len() && r[i].name@ == n
}

/// The component of a statistics pair that `order` compares by.
pub open spec fn stat_key(stat: (nat, u64), order: OrderBy) -> int {
    match order {
        OrderBy::LastSeen => stat.1 as int,
        OrderBy::Visits => stat.0 as int,
    }
}

/// The abstract state a sequence of records stands for.
pub open spec fn map_of(s: Seq<VisitRecord>) -> model::Stats
    decreases s.len(),
{
    if s.len() == 0 {
        Map::empty()
    } else {
        map_of(s.drop_last()).insert(
            s.last().name@,
            (s.last().count as nat, s.last().last_seen),
        )
    }
}

/// `r` lists the leading records of some descending reordering of `all`:
/// what a top-k listing returns.
pub open spec fn is_top_listing(all: Seq<VisitRecord>, order: OrderBy, r: Seq<VisitRecord>) -> bool {
    exists|s: Seq<VisitRecord>|
        #![trigger s.to_multiset()]
        s.to_multiset() == all.to_multiset() && sorted_desc(s, order) && r == s.take(
            r.len() as int,
        )
}

/// A name is in the abstract state exactly when some record of `s` carries it.
proof fn lemma_map_of_contains(s: Seq<VisitRecord>, name: Seq<char>)
    ensures
        map_of(s).contains_key(name) <==> exists|i: int| 0 <= i < s.len() && s[i].name@ == name,
    decreases s.len(),
{
    if s.len() > 0 {
        lemma_map_of_contains(s.drop_last(), name);
        if s.last().name@ == name {
            assert(s[s.len() - 1].name@ == name);
        } else if map_of(s).contains_key(name) {
            let i = choose|i: int| 0 <= i < s.drop_last().len() && s.drop_last()[i].name@ == name;
            assert(s[i].name@ == name);
        } else if exists|i: int| 0 <= i < s.len() && s[i].name@ == name {
            let i = choose|i: int| 0 <= i < s.len() && s[i].name@ == name;
            assert(s.drop_last()[i].name@ == name);
        }
    }
}

/// With unique names, the abstract state holds exactly the statistics of the
/// record that carries each name.
proof fn lemma_map_of_index(s: Seq<VisitRecord>, i: int)
    requires
        names_unique(s),
        0 <= i < s.len(),
    ensures
        map_of(s).contains_key(s[i].name@),
        map_of(s)[s[i].name@] == (s[i].count as nat, s[i].last_seen),
    decreases s.len(),
{
    if i < s.len() - 1 {
        assert(s.drop_last()[i] == s[i]);
        lemma_map_of_index(s.drop_last(), i);
        assert(s[i].name@ != s.last().name@);
    }
}

/// Replacing the record at `i` by one with the same name updates the
/// abstract state at that name alone.
proof fn lemma_map_of_update(s: Seq<VisitRecord>, i: int, r: VisitRecord)
    requires
        names_unique(s),
        0 <= i < s.len(),
        r.name@ == s[i].name@,
    ensures
        map_of(s.update(i, r)) == map_of(s).insert(r.name@, (r.count as nat, r.last_seen)),
    decreases s.len(),
{
    let su = s.update(i, r);
    if i == s.len() - 1 {
        assert(su.drop_last() =~= s.drop_last());
        assert(su.last() == r);
        assert(map_of(su) =~= map_of(s).insert(r.name@, (r.count as nat, r.last_seen)));
    } else {
        assert(su.drop_last() =~= s.drop_last().update(i, r));
        assert(su.last() == s.last());
        lemma_map_of_update(s.drop_last(), i, r);
        assert(s.drop_last()[i] == s[i]);
        assert(r.name@ != s.last().name@);
        assert(map_of(su) =~= map_of(s).insert(r.name@, (r.count as nat, r.last_seen)));
    }
}

/// With unique names, the abstract state has exactly one entry per record.
proof fn lemma_map_of_len(s: Seq<VisitRecord>)
    requires
        names_unique(s),
    ensures
        map_of(s).dom().finite(),
        map_of(s).len() == s.len(),
    decreases s.len(),
{
    if s.len() > 0 {
        lemma_map_of_len(s.drop_last());
        lemma_map_of_contains(s.drop_last(), s.last().name@);
        if map_of(s.drop_last()).contains_key(s.last().name@) {
            let i = choose|i: int|
                0 <= i < s.drop_last().len() && s.drop_last()[i].name@ == s.last().name@;
            assert(s[i].name@ == s.last().name@);
        }
    }
}

/// The registry: a set of visit records, at most one per name.
pub struct VisitRegistry {
    records: Vec<VisitRecord>,
}

impl View for VisitRegistry {
    type V = model::Stats;

    /// The abstract state: each recorded name mapped to its statistics.
    closed spec fn view(&self) -> model::Stats {
        map_of(self.records@)
    }
}

impl VisitRegistry {
    /// Every name occurs at most once, and every count is at least 1.
    pub closed spec fn wf(self) -> bool {
        &&& names_unique(self.records@)
        &&& forall|i: int| 0 <= i < self.records@.len() ==> self.records@[i].count >= 1
    }

    /// The stored records, in the order they first arrived.
    pub closed spec fn records_seq(self) -> Seq<VisitRecord> {
        self.records@
    }

    /// A fresh registry holds no records.
    pub fn new() -> (r: VisitRegistry)
        ensures
            r.wf(),
            r@ == Map::<Seq<char>, (nat, u64)>::empty(),
            r.records_seq() == Seq::<VisitRecord>::empty(),
    {
        VisitRegistry { records: Vec::new() }
    }

    /// Record one visit of `name` at time `now` and report the prior state:
    /// the number of earlier visits and, if the name was seen before, when it
    /// was last seen. A fresh name enters with count 1; a known name's count
    /// grows by exactly 1.
    pub fn record_visit(&mut self, name: &String, now: u64) -> (r: (u64, Option<u64>))
        requires
            old(self).wf(),
            model::visit_count(old(self)@, name@) < u64::MAX,
        ensures
            final(self).wf(),
            final(self)@ == model::visit_step(old(self)@, name@, now),
            r.0 as nat == model::visit_count(old(self)@, name@),
            r.1 == model::last_seen_of(old(self)@, name@),
            final(self).records_seq().len() == old(self).records_seq().len() + (
            if old(self)@.contains_key(name@) {
                0int
            } else {
                1int
            }),
    {
        let n = self.records.len();
        let mut i: usize = 0;
        while i < n
            invariant
                *self == *old(self),
                old(self).wf(),
                model::visit_count(old(self)@, name@) < u64::MAX,
                n == self.records@.len(),
                i <= n,
                forall|j: int| 0 <= j < i ==> self.records@[j].name@ != name@,
            decreases n - i,
        {
            if self.records[i].name == *name {
                proof {
                    lemma_map_of_index(self.records@, i as int);
                }
                let prev_count = self.records[i].count;
                let prev_seen = self.records[i].last_seen;
                let updated = VisitRecord {
                    name: self.records[i].name.clone(),
                    count: prev_count + 1,
                    last_seen: now,
                };
                self.records.set(i, updated);
                proof {
                    lemma_map_of_update(old(self).records@, i as int, updated);
                }
                return (prev_count, Some(prev_seen));
            }
            i += 1;
        }
        proof {
            lemma_map_of_contains(self.records@, name@);
        }
        let rec = VisitRecord { name: name.clone(), count: 1, last_seen: now };
        self.records.push(rec);
        proof {
            assert(self.records@.drop_last() =~= old(self).records@);
        }
        (0u64, None)
    }

    /// Remove every record. Always succeeds; clearing an empty registry
    /// leaves it empty, so clearing twice is the same as clearing once.
    pub fn clear_all(&mut self)
        ensures
            final(self).wf(),
            final(self)@ == model::clear_step(old(self)@),
            final(self).records_seq() == Seq::<VisitRecord>::empty(),
    {
        self.records.clear();
    }

    /// The registry stores exactly one record per name of its abstract
    /// state, so the state is finite and its size is the record count.
    pub proof fn lemma_record_count(self)
        requires
            self.wf(),
        ensures
            self@.dom().finite(),
            self@.len() == self.records_seq().len(),
    {
        lemma_map_of_len(self.records@);
    }

    /// Return up to `limit` records, in descending order of last-seen time
    /// or of visit count per `order`: the leading records of a descending
    /// reordering of everything stored, one row per name, each row carrying
    /// that name's stored statistics. When no more than `limit` names are
    /// stored, every name appears; otherwise no omitted name outranks a
    /// returned row.
    pub fn list_top(&self, limit: usize, order: OrderBy) -> (r: Vec<VisitRecord>)
        requires
            self.wf(),
        ensures
            r@.len() == if self@.len() <= limit {
                self@.len() as int
            } else {
                limit as int
            },
            sorted_desc(r@, order),
            names_unique(r@),
            is_top_listing(self.records_seq(), order, r@),
            forall|i: int|
                0 <= i < r@.len() ==> self.records_seq().to_multiset().contains(#[trigger] r@[i]),
            forall|i: int|
                0 <= i < r@.len() ==> self@.contains_key(#[trigger] r@[i].name@) && self@[r@[i].name@]
                    == (r@[i].count as nat, r@[i].last_seen),
            self@.len() <= limit ==> forall|n: Seq<char>|
                #[trigger] self@.contains_key(n) ==> listed_name(r@, n),
            forall|n: Seq<char>, i: int|
                #![trigger self@[n], r@[i]]
                self@.contains_key(n) && !listed_name(r@, n) && 0 <= i < r@.len() ==> stat_key(
                    self@[n],
                    order,
                ) <= sort_key(r@[i], order) as int,
            self.records_seq().len() <= limit ==> r@.to_multiset()
                == self.records_seq().to_multiset(),
    {
        broadcast use group_to_multiset_ensures;

        let ghost orig = self.records@;
        proof {
            lemma_map_of_len(orig);
        }
        let mut pool = self.records.clone();
        proof {
            assert(forall|i: int| 0 <= i < orig.len() ==> pool@[i] == orig[i]);
            assert(pool@ =~= orig);
        }
        let mut out: Vec<VisitRecord> = Vec::new();
        while pool.len() > 0
            invariant
                out@.to_multiset().add(pool@.to_multiset()) == orig.to_multiset(),
                out@.len() + pool@.len() == orig.len(),
                sorted_desc(out@, order),
                names_unique(out@),
                names_unique(pool@),
                forall|a: int, b: int|
                    0 <= a < out@.len() && 0 <= b < pool@.len() ==> sort_key(out@[a], order)
                        >= sort_key(pool@[b], order),
                forall|a: int, b: int|
                    0 <= a < out@.len() && 0 <= b < pool@.len() ==> out@[a].name@
                        != pool@[b].name@,
            decreases pool@.len(),
        {
            broadcast use group_to_multiset_ensures;

            let ghost out_before = out@;
            let ghost pool_before = pool@;
            let m = max_key_index(&pool, order);
            let rec = pool.remove(m);
            out.push(rec);
            proof {
                assert forall|b: int| 0 <= b < pool@.len() implies sort_key(
                    #[trigger] pool@[b],
                    order,
                ) <= sort_key(rec, order) by {
                    if b < m {
                        assert(pool@[b] == pool_before[b]);
                    } else {
                        assert(pool@[b] == pool_before[b + 1]);
                    }
                }
                assert forall|i: int, j: int| 0 <= i < j < pool@.len() implies pool@[i].name@
                    != pool@[j].name@ by {
                    let i0: int = if i < m {
                        i
                    } else {
                        i + 1
                    };
                    let j0: int = if j < m {
                        j
                    } else {
                        j + 1
                    };
                    assert(pool@[i] == pool_before[i0]);
                    assert(pool@[j] == pool_before[j0]);
                }
                assert forall|a: int, b: int|
                    0 <= a < out@.len() && 0 <= b < pool@.len() implies out@[a].name@
                    != pool@[b].name@ by {
                    let b0: int = if b < m {
                        b
                    } else {
                        b + 1
                    };
                    assert(pool@[b] == pool_before[b0]);
                    if a == out@.len() - 1 {
                        assert(out@[a] == pool_before[m as int]);
                    } else {
                        assert(out@[a] == out_before[a]);
                    }
                }
                assert forall|i: int, j: int| 0 <= i < j < out@.len() implies out@[i].name@
                    != out@[j].name@ by {
                    if j == out@.len() - 1 {
                        assert(out@[j] == pool_before[m as int]);
                        assert(out@[i] == out_before[i]);
                    }
                }
                assert(out@.to_multiset().add(pool@.to_multiset()) =~= orig.to_multiset());
            }
        }
        let ghost full = out@;
        proof {
            assert(full.to_multiset() =~= orig.to_multiset());
            assert forall|n: Seq<char>| #[trigger] self@.contains_key(n) implies listed_name(
                full,
                n,
            ) by {
                lemma_map_of_contains(orig, n);
                let j = choose|j: int| 0 <= j < orig.len() && orig[j].name@ == n;
                assert(orig.contains(orig[j]));
                assert(orig.to_multiset().contains(orig[j]));
                assert(full.to_multiset().contains(orig[j]));
                assert(full.contains(orig[j]));
                let i = choose|i: int| 0 <= i < full.len() && full[i] == orig[j];
                assert(full[i].name@ == n);
            }
        }
        out.truncate(limit);
        proof {
            if orig.len() <= limit {
                assert(out@ =~= full);
                assert(out@.to_multiset() == orig.to_multiset());
                assert(out@ =~= full.take(out@.len() as int));
            } else {
                assert(out@ == full.subrange(0, limit as int));
                assert(out@ =~= full.take(out@.len() as int));
            }
            assert(forall|i: int| 0 <= i < out@.len() ==> out@[i] == full[i]);
            assert forall|i: int, j: int| 0 <= i < j < out@.len() implies out@[i].name@
                != out@[j].name@ by {
                assert(out@[i] == full[i]);
                assert(out@[j] == full[j]);
            }
            assert(forall|i: int|
                0 <= i < out@.len() ==> orig.to_multiset().contains(#[trigger] out@[i])) by {
                assert(forall|i: int| 0 <= i < full.len() ==> full.contains(#[trigger] full[i]));
            }
            assert forall|i: int| 0 <= i < out@.len() implies self@.contains_key(
                #[trigger] out@[i].name@,
            ) && self@[out@[i].name@] == (out@[i].count as nat, out@[i].last_seen) by {
                assert(orig.to_multiset().contains(out@[i]));
                assert(orig.contains(out@[i]));
                let j = choose|j: int| 0 <= j < orig.len() && orig[j] == out@[i];
                lemma_map_of_index(orig, j);
            }
            if self@.len() <= limit {
                assert forall|n: Seq<char>| #[trigger] self@.contains_key(n) implies listed_name(
                    out@,
                    n,
                ) by {
                    assert(listed_name(full, n));
                    let i = choose|i: int| 0 <= i < full.len() && full[i].name@ == n;
                    assert(out@[i].name@ == n);
                }
            }
            assert forall|n: Seq<char>, i: int|
                self@.contains_key(n) && !listed_name(out@, n) && 0 <= i
                    < out@.len() implies #[trigger] stat_key(self@[n], order) <= sort_key(
                #[trigger] out@[i],
                order,
            ) as int by {
                assert(listed_name(full, n));
                let p = choose|p: int| 0 <= p < full.len() && full[p].name@ == n;
                assert(p >= out@.len()) by {
                    if p < out@.len() {
                        assert(out@[p].name@ == n);
                    }
                }
                assert(full.contains(full[p]));
                assert(full.to_multiset().contains(full[p]));
                assert(orig.to_multiset().contains(full[p]));
                assert(orig.contains(full[p]));
                let q = choose|q: int| 0 <= q < orig.len() && orig[q] == full[p];
                lemma_map_of_index(orig, q);
                assert(self@[n] == (full[p].count as nat, full[p].last_seen));
                assert(out@[i] == full[i]);
                assert(sort_key(full[i], order) >= sort_key(full[p], order));
            }
        }
        out
    }
}

/// The reply a visit owes for a prior state read from the store: the prior
/// count and last-seen time when the name was seen before, or zero and none
/// for a fresh name.
pub fn visit_reply(prior: Option<(u64, u64)>) -> (r: (u64, Option<u64>))
    ensures
        (match prior {
            Some(p) => r == (p.0, Some(p.1)),
            None => r == (0u64, None::<u64>),
        }),
{
    match prior {
        Some(p) => (p.0, Some(p.1)),
        None => (0, None),
    }
}

/// The position of a record whose sort key is greatest; the pool must be
/// non-empty.
fn max_key_index(pool: &Vec<VisitRecord>, order: OrderBy) -> (m: usize)
    requires
        pool@.len() > 0,
    ensures
        m < pool@.len(),
        forall|k: int| 0 <= k < pool@.len() ==> sort_key(pool@[k], order) <= sort_key(
            pool@[m as int],
            order,
        ),
{
    let mut m: usize = 0;
    let mut i: usize = 1;
    while i < pool.len()
        invariant
            m < i <= pool@.len(),
            forall|k: int| 0 <= k < i ==> sort_key(pool@[k], order) <= sort_key(
                pool@[m as int],
                order,
            ),
        decreases pool@.len() - i,
    {
        if key_of(&pool[i], order) > key_of(&pool[m], order) {
            m = i;
        }
        i += 1;
    }
    m
}

/// The field `order` compares by, read off one record.
fn key_of(r: &VisitRecord, order: OrderBy) -> (k: u64)
    ensures
        k == sort_key(*r, order),
{
    match order {
        OrderBy::LastSeen => r.last_seen,
        OrderBy::Visits => r.count,
    }
}

} // verus!
