//! Which tables this node currently wants deltas for.

use vstd::prelude::*;

use crate::ordered::{NameSet, SortedMap};

verus! {

/// Tracks table interest: counted while subscriptions hold it, and for a while
/// after a table was last read.
///
/// Times are readings of one monotonic clock. Callers serialize access.
pub struct DeltaInterestTracker {
    ref_counts: SortedMap<String, usize>,
    recent_expirations: SortedMap<String, u64>,
}

/// What a [`DeltaInterestTracker`] holds.
pub struct InterestView {
    pub counts: Map<Seq<char>, usize>,
    pub expirations: Map<Seq<char>, u64>,
}

impl View for DeltaInterestTracker {
    type V = InterestView;

    closed spec fn view(&self) -> InterestView {
        InterestView { counts: self.ref_counts@, expirations: self.recent_expirations@ }
    }
}

/// The expirations that lie after `now`.
pub open spec fn unexpired(expirations: Map<Seq<char>, u64>, now: u64) -> Map<Seq<char>, u64> {
    Map::new(
        |t: Seq<char>| expirations.dom().contains(t) && expirations[t] > now,
        |t: Seq<char>| expirations[t],
    )
}

/// How often a table is held.
pub open spec fn count_of(counts: Map<Seq<char>, usize>, table: Seq<char>) -> nat {
    if counts.dom().contains(table) {
        counts[table] as nat
    } else {
        0
    }
}

/// The counts after each of `tables` was held once more.
pub open spec fn counts_added(
    counts: Map<Seq<char>, usize>,
    tables: Set<Seq<char>>,
) -> Map<Seq<char>, usize> {
    Map::new(
        |t: Seq<char>| counts.dom().contains(t) || tables.contains(t),
        |t: Seq<char>|
            if tables.contains(t) {
                (count_of(counts, t) + 1) as usize
            } else {
                counts[t]
            },
    )
}

/// The counts after each of `tables` was released once; a table released for
/// the last time is gone.
pub open spec fn counts_removed(
    counts: Map<Seq<char>, usize>,
    tables: Set<Seq<char>>,
) -> Map<Seq<char>, usize> {
    Map::new(
        |t: Seq<char>| counts.dom().contains(t) && !(tables.contains(t) && counts[t] <= 1),
        |t: Seq<char>|
            if tables.contains(t) {
                (counts[t] - 1) as usize
            } else {
                counts[t]
            },
    )
}

/// The expirations after each of `tables` was kept until `expires_at` at least.
pub open spec fn expirations_refreshed(
    expirations: Map<Seq<char>, u64>,
    tables: Set<Seq<char>>,
    expires_at: u64,
) -> Map<Seq<char>, u64> {
    Map::new(
        |t: Seq<char>| expirations.dom().contains(t) || tables.contains(t),
        |t: Seq<char>|
            if tables.contains(t) && !(expirations.dom().contains(t) && expirations[t]
                > expires_at) {
                expires_at
            } else {
                expirations[t]
            },
    )
}

impl InterestView {
    /// The tables of interest: held, or read a short while ago.
    pub open spec fn tables(self) -> Set<Seq<char>> {
        self.counts.dom().union(self.expirations.dom())
    }
}

/// Holding tables and then releasing the same ones restores every count.
pub proof fn release_undoes_hold(counts: Map<Seq<char>, usize>, tables: Set<Seq<char>>)
    requires
        forall|t: Seq<char>| #[trigger] counts.dom().contains(t) ==> 0 < counts[t] < usize::MAX,
    ensures
        counts_removed(counts_added(counts, tables), tables) == counts,
{
    assert(counts_removed(counts_added(counts, tables), tables) =~= counts);
}

/// Tables that are held once more, or released once.
pub enum InterestCall {
    Hold(Set<Seq<char>>),
    Release(Set<Seq<char>>),
}

/// The counts after the first `n` calls.
pub open spec fn counts_after(calls: Seq<InterestCall>, n: nat) -> Map<Seq<char>, usize>
    decreases n,
{
    if n == 0 {
        Map::empty()
    } else {
        let before = counts_after(calls, (n - 1) as nat);
        match calls[n - 1] {
            InterestCall::Hold(tables) => counts_added(before, tables),
            InterestCall::Release(tables) => counts_removed(before, tables),
        }
    }
}

/// How often the first `n` calls held the table more than they released it.
pub open spec fn balance(calls: Seq<InterestCall>, table: Seq<char>, n: nat) -> int
    decreases n,
{
    if n == 0 {
        0
    } else {
        let before = balance(calls, table, (n - 1) as nat);
        match calls[n - 1] {
            InterestCall::Hold(tables) => if tables.contains(table) {
                before + 1
            } else {
                before
            },
            InterestCall::Release(tables) => if tables.contains(table) {
                before - 1
            } else {
                before
            },
        }
    }
}

/// A table is of interest as long as it has been held more often than it was
/// released, whatever else was held and released meanwhile.
pub proof fn interest_lasts_until_the_last_release(
    calls: Seq<InterestCall>,
    table: Seq<char>,
    n: nat,
)
    requires
        n <= calls.len(),
        forall|k: nat| k <= n ==> 0 <= #[trigger] balance(calls, table, k) <= usize::MAX,
    ensures
        count_of(counts_after(calls, n), table) == balance(calls, table, n),
        counts_after(calls, n).dom().contains(table) <==> 0 < balance(calls, table, n),
    decreases n,
{
    if n > 0 {
        interest_lasts_until_the_last_release(calls, table, (n - 1) as nat);
        assert(0 <= balance(calls, table, n) <= usize::MAX);
    }
}

/// A refresh never shortens the interest in any table.
pub proof fn refresh_never_shortens_interest(
    expirations: Map<Seq<char>, u64>,
    tables: Set<Seq<char>>,
    expires_at: u64,
    table: Seq<char>,
)
    requires
        expirations.dom().contains(table),
    ensures
        expirations_refreshed(expirations, tables, expires_at).dom().contains(table),
        expirations_refreshed(expirations, tables, expires_at)[table] >= expirations[table],
{
}

/// The names at the first `n` positions.
spec fn first_names(tables: &NameSet, n: int) -> Set<Seq<char>> {
    tables.keys().take(n).to_set()
}

proof fn lemma_next_name(tables: &NameSet, n: int)
    requires
        0 <= n < tables.keys().len(),
    ensures
        first_names(tables, n + 1) == first_names(tables, n).insert(tables.keys()[n]),
{
    let keys = tables.keys();
    assert(keys.take(n + 1) =~= keys.take(n).push(keys[n]));
    assert(first_names(tables, n + 1) =~= first_names(tables, n).insert(keys[n])) by {
        assert forall|t: Seq<char>| keys.take(n).push(keys[n]).contains(t) implies keys.take(
            n,
        ).contains(t) || t == keys[n] by {
            let i = keys.take(n).push(keys[n]).index_of(t);
            if i < n {
                assert(keys.take(n)[i] == t);
            }
        }
        assert forall|t: Seq<char>| keys.take(n).contains(t) implies keys.take(n).push(
            keys[n],
        ).contains(t) by {
            let i = keys.take(n).index_of(t);
            assert(keys.take(n).push(keys[n])[i] == t);
        }
        assert(keys.take(n).push(keys[n])[n] == keys[n]);
    }
}

proof fn lemma_name_is_new(tables: &NameSet, n: int)
    requires
        tables.wf(),
        0 <= n < tables.keys().len(),
    ensures
        !first_names(tables, n).contains(tables.keys()[n]),
{
    let keys = tables.keys();
    if first_names(tables, n).contains(keys[n]) {
        let i = keys.take(n).index_of(keys[n]);
        crate::text::text_order_is_total(keys[n], keys[n], keys[n]);
        assert(keys[i] == keys.take(n)[i]);
    }
}

proof fn lemma_all_names(tables: &NameSet)
    requires
        tables.wf(),
    ensures
        first_names(tables, 0) == Set::<Seq<char>>::empty(),
        first_names(tables, tables.keys().len() as int) == tables@.dom(),
        tables.keys().len() == 0 <==> tables@.dom() == Set::<Seq<char>>::empty(),
{
    let keys = tables.keys();
    tables.entries_agree();
    assert(keys.take(0) =~= Seq::<Seq<char>>::empty());
    assert(first_names(tables, 0) =~= Set::<Seq<char>>::empty());
    assert(keys.take(keys.len() as int) =~= keys);
    assert(first_names(tables, keys.len() as int) =~= tables@.dom());
    if keys.len() > 0 {
        assert(tables@.dom().contains(keys[0]));
    }
}

impl DeltaInterestTracker {
    /// Every table with a count is held at least once.
    pub closed spec fn wf(&self) -> bool {
        &&& self.ref_counts.wf()
        &&& self.recent_expirations.wf()
        &&& forall|t: Seq<char>| #[trigger]
            self@.counts.dom().contains(t) ==> self@.counts[t] > 0
    }

    /// Every table with a count is held at least once.
    pub proof fn counts_are_positive(&self)
        requires
            self.wf(),
        ensures
            forall|t: Seq<char>| #[trigger]
                self@.counts.dom().contains(t) ==> self@.counts[t] > 0,
    {
    }

    pub fn new() -> (r: Self)
        ensures
            r.wf(),
            r@ == (InterestView { counts: Map::empty(), expirations: Map::empty() }),
    {
        DeltaInterestTracker { ref_counts: SortedMap::new(), recent_expirations: SortedMap::new() }
    }

    /// Forgets the tables whose time has come, and tells whether there were any.
    pub fn prune_expired_at(&mut self, now: u64) -> (r: bool)
        requires
            old(self).wf(),
        ensures
            final(self).wf(),
            final(self)@.counts == old(self)@.counts,
            final(self)@.expirations == unexpired(old(self)@.expirations, now),
            r == (final(self)@.expirations != old(self)@.expirations),
    {
        let before: usize = self.recent_expirations.len();
        let mut i: usize = 0;
        proof {
            self.recent_expirations.entries_agree();
        }
        while i < self.recent_expirations.len()
            invariant
                self.wf(),
                self@.counts == old(self)@.counts,
                i <= self.recent_expirations.keys().len() <= before,
                self.recent_expirations.keys().len() == self.recent_expirations.values().len(),
                self.recent_expirations.keys().len() == before ==> self@.expirations
                    == old(self)@.expirations,
                self.recent_expirations.keys().len() < before ==> exists|t: Seq<char>|
                    old(self)@.expirations.dom().contains(t) && #[trigger] old(
                        self,
                    )@.expirations[t] <= now,
                forall|t: Seq<char>| #[trigger]
                    self@.expirations.dom().contains(t) ==> old(
                        self,
                    )@.expirations.dom().contains(t) && self@.expirations[t] == old(
                        self,
                    )@.expirations[t],
                forall|t: Seq<char>| #[trigger]
                    old(self)@.expirations.dom().contains(t) && old(self)@.expirations[t] > now
                        ==> self@.expirations.dom().contains(t),
                forall|k: int|
                    0 <= k < i ==> #[trigger] self.recent_expirations.values()[k] > now,
            decreases self.recent_expirations.keys().len() - i,
        {
            let ghost m = self.recent_expirations.keys()[i as int];
            let ghost values = self.recent_expirations.values();
            let ghost held = self@.expirations;
            proof {
                self.recent_expirations.entries_agree();
                assert(m == self.recent_expirations.keys()[i as int]);
                assert(held.dom().contains(m) && held[m] == values[i as int]);
            }
            if *self.recent_expirations.value_at(i) <= now {
                assert(old(self)@.expirations[m] <= now);
                self.recent_expirations.remove_at(i);
                proof {
                    assert(self@.expirations == held.remove(m));
                    assert forall|t: Seq<char>| #[trigger]
                        self@.expirations.dom().contains(t) implies self@.expirations[t]
                        == held[t] by {
                        assert(held.dom().contains(t));
                    }
                    assert forall|k: int| 0 <= k < i implies #[trigger]
                        self.recent_expirations.values()[k] > now by {
                        assert(self.recent_expirations.values()[k] == values[k]);
                    }
                }
            } else {
                i = i + 1;
            }
        }
        proof {
            self.recent_expirations.entries_agree();
            assert forall|t: Seq<char>| #[trigger]
                self@.expirations.dom().contains(t) implies self@.expirations[t] > now by {
                let keys = self.recent_expirations.keys();
                assert(keys.contains(t));
                let k = keys.index_of(t);
                assert(keys[k] == t);
                assert(self.recent_expirations.values()[k] > now);
            }
            assert(self@.expirations =~= unexpired(old(self)@.expirations, now));
            if self.recent_expirations.keys().len() < before {
                let t = choose|t: Seq<char>|
                    old(self)@.expirations.dom().contains(t) && #[trigger] old(
                        self,
                    )@.expirations[t] <= now;
                assert(!self@.expirations.dom().contains(t));
            }
        }
        self.recent_expirations.len() != before
    }

    /// Holds each of the tables once more.
    pub fn add_tables(&mut self, tables: &NameSet, now: u64)
        requires
            old(self).wf(),
            tables.wf(),
            forall|t: Seq<char>| #[trigger]
                tables@.dom().contains(t) ==> count_of(old(self)@.counts, t) < usize::MAX,
        ensures
            final(self).wf(),
            final(self)@ == (if tables@.dom() == Set::<Seq<char>>::empty() {
                old(self)@
            } else {
                InterestView {
                    counts: counts_added(old(self)@.counts, tables@.dom()),
                    expirations: unexpired(old(self)@.expirations, now),
                }
            }),
    {
        proof {
            lemma_all_names(tables);
            tables.entries_agree();
        }
        if tables.len() == 0 {
            return;
        }
        let pruned = self.prune_expired_at(now);
        let ghost counts = old(self)@.counts;
        let ghost expirations = self@.expirations;
        let mut i: usize = 0;
        proof {
            assert(self@.counts =~= counts_added(counts, first_names(tables, 0)));
        }
        while i < tables.len()
            invariant
                self.wf(),
                tables.wf(),
                counts == old(self)@.counts,
                self@.expirations == expirations,
                i <= tables.keys().len(),
                forall|t: Seq<char>| #[trigger]
                    tables@.dom().contains(t) ==> count_of(counts, t) < usize::MAX,
                forall|t: Seq<char>| #[trigger]
                    counts.dom().contains(t) ==> counts[t] > 0,
                self@.counts == counts_added(counts, first_names(tables, i as int)),
            decreases tables.keys().len() - i,
        {
            let table = tables.key_at(i);
            proof {
                lemma_next_name(tables, i as int);
                lemma_name_is_new(tables, i as int);
                tables.entries_agree();
                assert(tables@.dom().contains(tables.keys()[i as int]));
            }
            let count: usize = match self.ref_counts.get(table) {
                Some(count) => *count,
                None => 0,
            };
            self.ref_counts.insert(table.clone(), count + 1);
            proof {
                assert(self@.counts =~= counts_added(counts, first_names(tables, i + 1)));
            }
            i = i + 1;
        }
    }

    /// Releases each of the tables once.
    pub fn remove_tables(&mut self, tables: &NameSet, now: u64)
        requires
            old(self).wf(),
            tables.wf(),
        ensures
            final(self).wf(),
            final(self)@ == (if tables@.dom() == Set::<Seq<char>>::empty() {
                old(self)@
            } else {
                InterestView {
                    counts: counts_removed(old(self)@.counts, tables@.dom()),
                    expirations: unexpired(old(self)@.expirations, now),
                }
            }),
    {
        proof {
            lemma_all_names(tables);
        }
        if tables.len() == 0 {
            return;
        }
        let pruned = self.prune_expired_at(now);
        let ghost counts = old(self)@.counts;
        let ghost expirations = self@.expirations;
        let mut i: usize = 0;
        proof {
            assert(self@.counts =~= counts_removed(counts, first_names(tables, 0)));
        }
        while i < tables.len()
            invariant
                self.wf(),
                tables.wf(),
                self@.expirations == expirations,
                i <= tables.keys().len(),
                self@.counts == counts_removed(counts, first_names(tables, i as int)),
            decreases tables.keys().len() - i,
        {
            let table = tables.key_at(i);
            proof {
                lemma_next_name(tables, i as int);
                lemma_name_is_new(tables, i as int);
            }
            let count: usize = match self.ref_counts.get(table) {
                Some(count) => *count,
                None => 0,
            };
            if count > 1 {
                self.ref_counts.insert(table.clone(), count - 1);
            } else if count == 1 {
                self.ref_counts.remove(table);
            }
            proof {
                assert(self@.counts =~= counts_removed(counts, first_names(tables, i + 1)));
            }
            i = i + 1;
        }
    }

    /// Keeps the tables of interest for `ttl` from `now`; without a table or a
    /// time to keep it, or past the end of the clock, nothing changes. Tells
    /// whether they are kept.
    pub fn refresh_recent_tables_at(&mut self, tables: &NameSet, now: u64, ttl: u64) -> (r: bool)
        requires
            old(self).wf(),
            tables.wf(),
        ensures
            final(self).wf(),
            r <==> tables@.dom() != Set::<Seq<char>>::empty() && ttl > 0 && now + ttl <= u64::MAX,
            final(self)@ == (if !r {
                old(self)@
            } else {
                InterestView {
                    counts: old(self)@.counts,
                    expirations: expirations_refreshed(
                        unexpired(old(self)@.expirations, now),
                        tables@.dom(),
                        (now + ttl) as u64,
                    ),
                }
            }),
    {
        proof {
            lemma_all_names(tables);
        }
        if tables.len() == 0 || ttl == 0 {
            return false;
        }
        let expires_at: u64 = match now.checked_add(ttl) {
            Some(expires_at) => expires_at,
            None => {
                return false;
            },
        };
        let pruned = self.prune_expired_at(now);
        let ghost expirations = self@.expirations;
        let mut i: usize = 0;
        proof {
            assert(self@.expirations =~= expirations_refreshed(
                expirations,
                first_names(tables, 0),
                expires_at,
            ));
        }
        while i < tables.len()
            invariant
                self.wf(),
                tables.wf(),
                self@.counts == old(self)@.counts,
                i <= tables.keys().len(),
                self@.expirations == expirations_refreshed(
                    expirations,
                    first_names(tables, i as int),
                    expires_at,
                ),
            decreases tables.keys().len() - i,
        {
            let table = tables.key_at(i);
            proof {
                lemma_next_name(tables, i as int);
                lemma_name_is_new(tables, i as int);
            }
            let until: u64 = match self.recent_expirations.get(table) {
                Some(current) => if *current > expires_at {
                    *current
                } else {
                    expires_at
                },
                None => expires_at,
            };
            self.recent_expirations.insert(table.clone(), until);
            proof {
                assert(self@.expirations =~= expirations_refreshed(
                    expirations,
                    first_names(tables, i + 1),
                    expires_at,
                ));
            }
            i = i + 1;
        }
        true
    }

    /// The tables of interest at `now`.
    pub fn snapshot(&mut self, now: u64) -> (r: NameSet)
        requires
            old(self).wf(),
        ensures
            final(self).wf(),
            final(self)@.counts == old(self)@.counts,
            final(self)@.expirations == unexpired(old(self)@.expirations, now),
            r.wf(),
            r@.dom() == final(self)@.tables(),
    {
        let pruned = self.prune_expired_at(now);
        let mut out: NameSet = SortedMap::new();
        let mut i: usize = 0;
        while i < self.ref_counts.len()
            invariant
                self.wf(),
                out.wf(),
                i <= self.ref_counts.keys().len(),
                forall|t: Seq<char>| #[trigger]
                    out@.dom().contains(t) <==> self.ref_counts.keys().take(i as int).contains(t),
            decreases self.ref_counts.keys().len() - i,
        {
            let ghost keys = self.ref_counts.keys();
            let ghost before = out@;
            let table = self.ref_counts.key_at(i);
            out.insert(table.clone(), ());
            proof {
                lemma_take_contains(keys, i as int);
            }
            i = i + 1;
        }
        let mut j: usize = 0;
        proof {
            self.ref_counts.entries_agree();
            let keys = self.ref_counts.keys();
            assert(keys.take(i as int) =~= keys);
        }
        while j < self.recent_expirations.len()
            invariant
                self.wf(),
                out.wf(),
                j <= self.recent_expirations.keys().len(),
                forall|t: Seq<char>| #[trigger]
                    out@.dom().contains(t) <==> (self@.counts.dom().contains(t)
                        || self.recent_expirations.keys().take(j as int).contains(t)),
            decreases self.recent_expirations.keys().len() - j,
        {
            let ghost keys = self.recent_expirations.keys();
            let table = self.recent_expirations.key_at(j);
            out.insert(table.clone(), ());
            proof {
                lemma_take_contains(keys, j as int);
            }
            j = j + 1;
        }
        proof {
            self.recent_expirations.entries_agree();
            let keys = self.recent_expirations.keys();
            assert(keys.take(j as int) =~= keys);
            assert(out@.dom() =~= self@.tables());
        }
        out
    }
}

proof fn lemma_take_contains(keys: Seq<Seq<char>>, n: int)
    requires
        0 <= n < keys.len(),
    ensures
        forall|t: Seq<char>| #[trigger]
            keys.take(n + 1).contains(t) <==> (keys.take(n).contains(t) || t == keys[n]),
{
    assert forall|t: Seq<char>| #[trigger] keys.take(n + 1).contains(t) <==> (keys.take(n).contains(
        t,
    ) || t == keys[n]) by {
        if keys.take(n + 1).contains(t) {
            let i = keys.take(n + 1).index_of(t);
            if i < n {
                assert(keys.take(n)[i] == t);
            }
        }
        if keys.take(n).contains(t) {
            let i = keys.take(n).index_of(t);
            assert(keys.take(n + 1)[i] == t);
        }
        assert(keys.take(n + 1)[n] == keys[n]);
    }
}

/// A table is of interest where a subscription holds it, or where it was read and
/// the time to keep it has not come, and otherwise not.
pub proof fn interest_is_held_or_recent(interest: InterestView, now: u64, table: Seq<char>)
    ensures
        (InterestView {
            expirations: unexpired(interest.expirations, now),
            ..interest
        }).tables().contains(table) <==> interest.counts.dom().contains(table) || (
        interest.expirations.dom().contains(table) && now < interest.expirations[table]),
        unexpired(interest.expirations, now).dom().contains(table) ==> unexpired(
            interest.expirations,
            now,
        )[table] == interest.expirations[table],
{
}

/// Forgetting the tables whose time has come forgets no other, and forgetting
/// again later is the same as forgetting once.
pub proof fn forgetting_goes_with_the_clock(
    expirations: Map<Seq<char>, u64>,
    now: u64,
    later: u64,
)
    requires
        now <= later,
    ensures
        unexpired(unexpired(expirations, now), later) == unexpired(expirations, later),
{
    assert(unexpired(unexpired(expirations, now), later) =~= unexpired(expirations, later));
}

/// A table that is read is kept until the later of its old and its new time, and
/// the others keep theirs.
pub proof fn refreshed_tables_are_kept_longest(
    expirations: Map<Seq<char>, u64>,
    tables: Set<Seq<char>>,
    expires_at: u64,
    table: Seq<char>,
)
    ensures
        ({
            let after = expirations_refreshed(expirations, tables, expires_at);
            &&& after.dom().contains(table) <==> expirations.dom().contains(table)
                || tables.contains(table)
            &&& tables.contains(table) ==> after[table] >= expires_at
            &&& tables.contains(table) && expirations.dom().contains(table) ==> after[table]
                >= expirations[table] && (after[table] == expires_at || after[table]
                == expirations[table])
            &&& tables.contains(table) && !expirations.dom().contains(table) ==> after[table]
                == expires_at
            &&& !tables.contains(table) && expirations.dom().contains(table) ==> after[table]
                == expirations[table]
        }),
{
}

/// Each table that is named is held once more, or once less and not below zero,
/// and the others are held as before.
pub proof fn holds_and_releases_count_by_one(
    counts: Map<Seq<char>, usize>,
    tables: Set<Seq<char>>,
    table: Seq<char>,
)
    requires
        counts.dom().contains(table) ==> 0 < counts[table] < usize::MAX,
    ensures
        tables.contains(table) ==> count_of(counts_added(counts, tables), table) == count_of(
            counts,
            table,
        ) + 1,
        tables.contains(table) && count_of(counts, table) > 0 ==> count_of(
            counts_removed(counts, tables),
            table,
        ) + 1 == count_of(counts, table),
        tables.contains(table) && count_of(counts, table) == 0 ==> count_of(
            counts_removed(counts, tables),
            table,
        ) == 0,
        !tables.contains(table) ==> count_of(counts_added(counts, tables), table) == count_of(
            counts,
            table,
        ) && count_of(counts_removed(counts, tables), table) == count_of(counts, table),
        counts_added(counts, tables).dom().contains(table) <==> count_of(
            counts_added(counts, tables),
            table,
        ) > 0,
        counts_removed(counts, tables).dom().contains(table) <==> count_of(
            counts_removed(counts, tables),
            table,
        ) > 0,
{
}

} // verus!
