//! From what a query read to the dependencies it registers.

use vstd::prelude::*;

use crate::invalidation;
use crate::invalidation::{
    DependencyView, IndexView, InvalidationDependency, InvalidationIndex, WriteView,
};
use crate::text;

verus! {

/// The index keys from `start` on, and before `end` where there is one.
#[derive(Clone, Debug, PartialEq, Eq)]
pub struct Interval {
    pub start: Vec<u8>,
    pub end: Option<Vec<u8>>,
}

/// The intervals that a query read from one index.
#[derive(Clone, Debug, PartialEq, Eq)]
pub struct IndexReads {
    pub index: InvalidationIndex,
    pub intervals: Vec<Interval>,
}

/// What a query read: intervals of indexes, and the tablets that it searched.
#[derive(Clone, Debug, PartialEq, Eq)]
pub struct ReadSet {
    pub indexed: Vec<IndexReads>,
    pub searched: Vec<String>,
}

impl Interval {
    /// The interval holds every key.
    pub open spec fn is_all_spec(&self) -> bool {
        self.start@.len() == 0 && self.end is None
    }

    /// The interval holds its start and no other key: it ends at the least key
    /// after the start.
    pub open spec fn is_singleton_spec(&self) -> bool {
        invalidation::end_view(self.end) == Some(self.start@.push(0u8))
    }

    /// The interval holds the key.
    pub open spec fn holds(&self, key: Seq<u8>) -> bool {
        invalidation::in_range(key, self.start@, invalidation::end_view(self.end))
    }

    /// Whether the interval holds every key.
    pub fn is_all(&self) -> (r: bool)
        ensures
            r == self.is_all_spec(),
    {
        self.start.len() == 0 && self.end.is_none()
    }

    /// Whether the interval holds exactly one key.
    pub fn is_singleton(&self) -> (r: bool)
        ensures
            r == self.is_singleton_spec(),
    {
        match &self.end {
            None => false,
            Some(end) => {
                let mut next = self.start.clone();
                next.push(0u8);
                assert(next@ =~= self.start@.push(0u8));
                invalidation::same_bytes(end, &next)
            },
        }
    }
}

/// A singleton interval holds its start and nothing else.
pub proof fn singleton_holds_one_key(interval: Interval, key: Seq<u8>)
    requires
        interval.is_singleton_spec(),
    ensures
        interval.holds(key) <==> key == interval.start@,
{
    let start = interval.start@;
    let next = start.push(0u8);
    text::bytes_order_is_total(start, key, start);
    text::bytes_order_is_total(key, next, key);
    assert(text::lex_splits_at(
        text::bytes_key(start),
        text::bytes_key(next),
        start.len() as int,
    ));
    if text::bytes_before(start, key) && text::bytes_before(key, next) {
        let a = text::bytes_key(start);
        let b = text::bytes_key(key);
        let c = text::bytes_key(next);
        let k1 = choose|k: int| text::lex_splits_at(a, b, k);
        let k2 = choose|k: int| text::lex_splits_at(b, c, k);
        if k1 < start.len() {
            assert(a[k1] < b[k1]);
            if k2 < k1 {
                assert(b[k2] < c[k2]);
            } else {
                assert(c[k1] == a[k1]);
            }
            assert(false);
        } else {
            assert(k1 == start.len());
            if k2 < k1 {
                assert(a[k2] == b[k2]);
                assert(c[k2] == a[k2]);
            } else {
                assert(k2 == k1);
            }
            assert(false);
        }
    }
}

/// An interval that holds every key does.
pub proof fn all_holds_every_key(interval: Interval, key: Seq<u8>)
    requires
        interval.is_all_spec(),
    ensures
        interval.holds(key),
{
    if text::bytes_before(key, interval.start@) {
        let k = choose|k: int|
            text::lex_splits_at(text::bytes_key(key), text::bytes_key(interval.start@), k);
        assert(false);
    }
}

/// The dependency on a bounded interval of an index.
pub open spec fn interval_dependency(index: IndexView, interval: Interval) -> DependencyView {
    if interval.is_singleton_spec() {
        DependencyView::Point { index, key: interval.start@ }
    } else {
        DependencyView::IndexRange {
            index,
            start_inclusive: interval.start@,
            end_exclusive: invalidation::end_view(interval.end),
        }
    }
}

impl ReadSet {
    /// The query read the interval of the index.
    pub open spec fn reads(&self, i: int, j: int) -> bool {
        0 <= i < self.indexed@.len() && 0 <= j < self.indexed@[i].intervals@.len()
    }

    /// The query read the whole tablet: through an unbounded interval of an
    /// index, or by a search.
    pub open spec fn scans(&self, tablet_id: Seq<char>) -> bool {
        ||| exists|i: int, j: int|
            #![trigger self.indexed@[i].intervals@[j]]
            self.reads(i, j) && self.indexed@[i].intervals@[j].is_all_spec()
                && self.indexed@[i].index@.tablet_id == tablet_id
        ||| exists|k: int|
            0 <= k < self.searched@.len() && (#[trigger] self.searched@[k])@ == tablet_id
    }

    /// The dependencies of the query: a table scan for each tablet read as a
    /// whole, and points and ranges for the other tablets.
    pub open spec fn dependencies(&self) -> Set<DependencyView> {
        Set::new(
            |d: DependencyView|
                match d {
                    DependencyView::TableScan { tablet_id } => self.scans(tablet_id),
                    _ => !self.scans(d.tablet_id()) && exists|i: int, j: int|
                        #![trigger self.indexed@[i].intervals@[j]]
                        self.reads(i, j) && d == interval_dependency(
                            self.indexed@[i].index@,
                            self.indexed@[i].intervals@[j],
                        ),
                },
        )
    }
}

/// The write is to the tablet of the index, and it has a key in the interval
/// that the query read of it, or may have one for all that is known of its keys.
pub open spec fn may_touch_interval(reads: ReadSet, write: WriteView, i: int, j: int) -> bool {
    let index = reads.indexed@[i].index@;
    &&& reads.reads(i, j)
    &&& index.tablet_id == write.tablet_id
    &&& invalidation::keys_unknown(write, index.descriptor) || exists|key: Seq<u8>| #[trigger]
        write.keys.contains((index.descriptor, key)) && reads.indexed@[i].intervals@[j].holds(key)
}

/// The write may have changed what the query read: it is to a tablet that the
/// query searched or read as a whole, or it may touch an interval of an index
/// that the query read.
pub open spec fn may_touch(reads: ReadSet, write: WriteView) -> bool {
    ||| reads.scans(write.tablet_id)
    ||| exists|i: int, j: int| #[trigger] may_touch_interval(reads, write, i, j)
}

/// No invalidation is missed: a write that may have changed what the query read
/// matches one of its dependencies.
pub proof fn dependencies_cover_every_read(reads: ReadSet, write: WriteView)
    requires
        may_touch(reads, write),
    ensures
        exists|d: DependencyView| #[trigger]
            reads.dependencies().contains(d) && invalidation::dependency_matches(d, write),
{
    if reads.scans(write.tablet_id) {
        let d = DependencyView::TableScan { tablet_id: write.tablet_id };
        assert(reads.dependencies().contains(d));
    } else {
        let (i, j) = choose|i: int, j: int| #[trigger] may_touch_interval(reads, write, i, j);
        let index = reads.indexed@[i].index@;
        let interval = reads.indexed@[i].intervals@[j];
        let d = interval_dependency(index, interval);
        assert(!interval.is_all_spec()) by {
            assert(reads.indexed@[i].intervals@[j] == interval);
        }
        assert(d.tablet_id() == index.tablet_id);
        assert(reads.dependencies().contains(d));
        if !invalidation::keys_unknown(write, index.descriptor) {
            let key = choose|key: Seq<u8>| #[trigger]
                write.keys.contains((index.descriptor, key)) && interval.holds(key);
            if interval.is_singleton_spec() {
                singleton_holds_one_key(interval, key);
            } else {
                assert(invalidation::some_key_in_range(
                    write.keys,
                    index.descriptor,
                    interval.start@,
                    invalidation::end_view(interval.end),
                ));
            }
        }
    }
}

/// A search of a tablet is covered by a dependency on the whole tablet, which
/// every write to it matches.
pub proof fn searches_miss_no_write(reads: ReadSet, write: WriteView, k: int)
    requires
        0 <= k < reads.searched@.len(),
        reads.searched@[k]@ == write.tablet_id,
    ensures
        reads.dependencies().contains(DependencyView::TableScan { tablet_id: write.tablet_id }),
        invalidation::dependency_matches(
            DependencyView::TableScan { tablet_id: write.tablet_id },
            write,
        ),
{
}

/// Whether the name is listed.
fn has_name(list: &Vec<String>, name: &String) -> (r: bool)
    ensures
        r == exists|k: int| 0 <= k < list@.len() && (#[trigger] list@[k])@ == name@,
{
    let mut i: usize = 0;
    while i < list.len()
        invariant
            i <= list@.len(),
            forall|k: int| 0 <= k < i ==> (#[trigger] list@[k])@ != name@,
        decreases list@.len() - i,
    {
        if list[i] == *name {
            return true;
        }
        i = i + 1;
    }
    false
}

/// Whether the query read the tablet as a whole.
fn is_scanned(read_set: &ReadSet, tablet_id: &String) -> (r: bool)
    ensures
        r == read_set.scans(tablet_id@),
{
    let mut i: usize = 0;
    while i < read_set.indexed.len()
        invariant
            i <= read_set.indexed@.len(),
            forall|a: int, b: int|
                #![trigger read_set.indexed@[a].intervals@[b]]
                0 <= a < i && read_set.reads(a, b) ==> !(
                read_set.indexed@[a].intervals@[b].is_all_spec()
                    && read_set.indexed@[a].index@.tablet_id == tablet_id@),
        decreases read_set.indexed@.len() - i,
    {
        let reads = &read_set.indexed[i];
        if reads.index.tablet_id == *tablet_id {
            let mut j: usize = 0;
            while j < reads.intervals.len()
                invariant
                    i < read_set.indexed@.len(),
                    *reads == read_set.indexed@[i as int],
                    reads.index@.tablet_id == tablet_id@,
                    j <= reads.intervals@.len(),
                    forall|b: int|
                        0 <= b < j ==> !(#[trigger] reads.intervals@[b]).is_all_spec(),
                decreases reads.intervals@.len() - j,
            {
                if reads.intervals[j].is_all() {
                    assert(read_set.reads(i as int, j as int));
                    assert(read_set.indexed@[i as int].intervals@[j as int].is_all_spec());
                    return true;
                }
                j = j + 1;
            }
        }
        i = i + 1;
    }
    has_name(&read_set.searched, tablet_id)
}

/// No two entries are the same dependency.
pub open spec fn distinct(list: Seq<InvalidationDependency>) -> bool {
    forall|i: int, j: int|
        0 <= i < j < list.len() ==> (#[trigger] list[i])@ != (#[trigger] list[j])@
}

/// Adds the dependency unless it is listed.
fn add_dependency(list: &mut Vec<InvalidationDependency>, dependency: InvalidationDependency)
    requires
        distinct(old(list)@),
    ensures
        distinct(final(list)@),
        invalidation::dependency_set(final(list)@) == invalidation::dependency_set(
            old(list)@,
        ).insert(dependency@),
{
    if invalidation::has_dependency(list, &dependency) {
        assert(invalidation::dependency_set(list@) =~= invalidation::dependency_set(
            old(list)@,
        ).insert(dependency@));
        return;
    }
    list.push(dependency);
    proof {
        assert forall|i: int, j: int| 0 <= i < j < list@.len() implies (#[trigger] list@[i])@ != (
        #[trigger] list@[j])@ by {
            assert(list@[i] == old(list)@[i]);
            if j == old(list)@.len() {
                assert(!invalidation::dependency_set(old(list)@).contains(dependency@));
            }
        }
        let before = invalidation::dependency_set(old(list)@);
        let after = invalidation::dependency_set(list@);
        assert forall|d: DependencyView| after.contains(d) <==> before.insert(dependency@).contains(
            d,
        ) by {
            if after.contains(d) {
                let k = choose|k: int| 0 <= k < list@.len() && (#[trigger] list@[k])@ == d;
                if k < old(list)@.len() {
                    assert(old(list)@[k]@ == d);
                }
            }
            if before.contains(d) {
                let k = choose|k: int|
                    0 <= k < old(list)@.len() && (#[trigger] old(list)@[k])@ == d;
                assert(list@[k]@ == d);
            }
            assert(list@[list@.len() - 1]@ == dependency@);
        }
        assert(after =~= before.insert(dependency@));
    }
}

/// The dependencies on tablets not read as a whole, from the intervals before
/// position (`n`, `m`).
spec fn bounded_before(read_set: ReadSet, n: int, m: int) -> Set<DependencyView> {
    Set::new(
        |d: DependencyView|
            !read_set.scans(d.tablet_id()) && exists|i: int, j: int|
                #![trigger read_set.indexed@[i].intervals@[j]]
                read_set.reads(i, j) && (i < n || (i == n && j < m)) && d == interval_dependency(
                    read_set.indexed@[i].index@,
                    read_set.indexed@[i].intervals@[j],
                ),
    )
}

/// Convert a read set into ownership-protocol dependencies.
///
/// Standard index intervals retain their precision. Singleton intervals become
/// point dependencies. Full index reads and search reads become table scans so
/// the distributed matcher cannot miss an invalidation it cannot evaluate
/// precisely yet.
pub fn dependencies_from_read_set(read_set: &ReadSet) -> (r: Vec<InvalidationDependency>)
    ensures
        invalidation::dependency_set(r@) == read_set.dependencies(),
        distinct(r@),
{
    let mut out: Vec<InvalidationDependency> = Vec::new();
    let mut i: usize = 0;
    proof {
        assert(invalidation::dependency_set(out@) =~= bounded_before(*read_set, 0, 0));
    }
    while i < read_set.indexed.len()
        invariant
            i <= read_set.indexed@.len(),
            distinct(out@),
            invalidation::dependency_set(out@) == bounded_before(*read_set, i as int, 0),
        decreases read_set.indexed@.len() - i,
    {
        let reads = &read_set.indexed[i];
        let scanned = is_scanned(read_set, &reads.index.tablet_id);
        let mut j: usize = 0;
        while j < reads.intervals.len()
            invariant
                i < read_set.indexed@.len(),
                *reads == read_set.indexed@[i as int],
                scanned == read_set.scans(reads.index@.tablet_id),
                j <= reads.intervals@.len(),
                distinct(out@),
                invalidation::dependency_set(out@) == bounded_before(
                    *read_set,
                    i as int,
                    j as int,
                ),
            decreases reads.intervals@.len() - j,
        {
            let interval = &reads.intervals[j];
            let ghost d = interval_dependency(reads.index@, *interval);
            proof {
                assert(read_set.reads(i as int, j as int));
                assert(read_set.indexed@[i as int].intervals@[j as int] == *interval);
                let before = bounded_before(*read_set, i as int, j as int);
                let after = bounded_before(*read_set, i as int, j + 1);
                assert(d.tablet_id() == reads.index@.tablet_id);
                if scanned {
                    assert(after =~= before);
                } else {
                    assert(after =~= before.insert(d));
                }
            }
            if !scanned {
                let dependency = if interval.is_singleton() {
                    InvalidationDependency::Point {
                        index: reads.index.duplicate(),
                        key: interval.start.clone(),
                    }
                } else {
                    let end_exclusive: Option<Vec<u8>> = match &interval.end {
                        Some(end) => Some(end.clone()),
                        None => None,
                    };
                    InvalidationDependency::IndexRange {
                        index: reads.index.duplicate(),
                        start_inclusive: interval.start.clone(),
                        end_exclusive,
                    }
                };
                assert(dependency@ == d);
                add_dependency(&mut out, dependency);
            }
            j = j + 1;
        }
        assert(bounded_before(*read_set, i as int, j as int) =~= bounded_before(
            *read_set,
            i + 1,
            0,
        ));
        i = i + 1;
    }
    add_scans(read_set, &mut out);
    out
}

/// Adds a table scan for each tablet that the query read as a whole.
fn add_scans(read_set: &ReadSet, out: &mut Vec<InvalidationDependency>)
    requires
        distinct(old(out)@),
        invalidation::dependency_set(old(out)@) == bounded_before(
            *read_set,
            read_set.indexed@.len() as int,
            0,
        ),
    ensures
        distinct(final(out)@),
        invalidation::dependency_set(final(out)@) == read_set.dependencies(),
{
    let ghost bounded = bounded_before(*read_set, read_set.indexed@.len() as int, 0);
    let mut i: usize = 0;
    while i < read_set.indexed.len()
        invariant
            i <= read_set.indexed@.len(),
            bounded == bounded_before(*read_set, read_set.indexed@.len() as int, 0),
            distinct(out@),
            bounded.subset_of(invalidation::dependency_set(out@)),
            forall|d: DependencyView| #[trigger]
                invalidation::dependency_set(out@).contains(d) ==> bounded.contains(d) || (
                d is TableScan && read_set.scans(d.tablet_id())),
            forall|a: int| #![trigger read_set.indexed@[a]]
                0 <= a < i && read_set.scans(read_set.indexed@[a].index@.tablet_id)
                    ==> invalidation::dependency_set(out@).contains(
                    DependencyView::TableScan { tablet_id: read_set.indexed@[a].index@.tablet_id },
                ),
        decreases read_set.indexed@.len() - i,
    {
        let tablet_id = &read_set.indexed[i].index.tablet_id;
        if is_scanned(read_set, tablet_id) {
            add_dependency(
                out,
                InvalidationDependency::TableScan { tablet_id: tablet_id.clone() },
            );
        }
        i = i + 1;
    }
    let mut k: usize = 0;
    while k < read_set.searched.len()
        invariant
            k <= read_set.searched@.len(),
            bounded == bounded_before(*read_set, read_set.indexed@.len() as int, 0),
            distinct(out@),
            bounded.subset_of(invalidation::dependency_set(out@)),
            forall|d: DependencyView| #[trigger]
                invalidation::dependency_set(out@).contains(d) ==> bounded.contains(d) || (
                d is TableScan && read_set.scans(d.tablet_id())),
            forall|a: int| #![trigger read_set.indexed@[a]]
                0 <= a < read_set.indexed@.len() && read_set.scans(
                    read_set.indexed@[a].index@.tablet_id,
                ) ==> invalidation::dependency_set(out@).contains(
                    DependencyView::TableScan { tablet_id: read_set.indexed@[a].index@.tablet_id },
                ),
            forall|a: int|
                0 <= a < k ==> invalidation::dependency_set(out@).contains(
                    DependencyView::TableScan { tablet_id: (#[trigger] read_set.searched@[a])@ },
                ),
        decreases read_set.searched@.len() - k,
    {
        let tablet_id = &read_set.searched[k];
        assert(read_set.scans(tablet_id@));
        add_dependency(out, InvalidationDependency::TableScan { tablet_id: tablet_id.clone() });
        k = k + 1;
    }
    proof {
        let got = invalidation::dependency_set(out@);
        assert forall|d: DependencyView| got.contains(d) <==> read_set.dependencies().contains(
            d,
        ) by {
            if got.contains(d) && bounded.contains(d) {
                let (i, j) = choose|i: int, j: int|
                    #![trigger read_set.indexed@[i].intervals@[j]]
                    read_set.reads(i, j) && d == interval_dependency(
                        read_set.indexed@[i].index@,
                        read_set.indexed@[i].intervals@[j],
                    );
                assert(read_set.dependencies().contains(d));
            }
            if read_set.dependencies().contains(d) {
                if d is TableScan {
                    let t = d.tablet_id();
                    if exists|k: int|
                        0 <= k < read_set.searched@.len() && (#[trigger] read_set.searched@[k])@
                            == t {
                        let k = choose|k: int|
                            0 <= k < read_set.searched@.len() && (
                            #[trigger] read_set.searched@[k])@ == t;
                        assert(got.contains(DependencyView::TableScan { tablet_id: t }));
                    } else {
                        let (i, j) = choose|i: int, j: int|
                            #![trigger read_set.indexed@[i].intervals@[j]]
                            read_set.reads(i, j)
                                && read_set.indexed@[i].intervals@[j].is_all_spec()
                                && read_set.indexed@[i].index@.tablet_id == t;
                        assert(read_set.scans(read_set.indexed@[i].index@.tablet_id));
                        assert(got.contains(DependencyView::TableScan { tablet_id: t }));
                    }
                } else {
                    assert(bounded.contains(d));
                }
            }
        }
        assert(got =~= read_set.dependencies());
    }
}

/// An interval holds the keys from its start on, before its end where it has one.
pub proof fn intervals_hold_the_keys_between(interval: Interval, key: Seq<u8>)
    ensures
        interval.holds(key) <==> (interval.start@ == key || text::bytes_before(
            interval.start@,
            key,
        )) && (interval.end matches Some(end) ==> text::bytes_before(key, end@)),
{
    text::bytes_order_is_total(key, interval.start@, key);
    text::bytes_order_is_total(interval.start@, key, interval.start@);
}

/// An interval is unbounded exactly where it starts with the first key and has no
/// end, and of one key exactly where it ends with the next key after its start.
pub proof fn bounds_tell_the_sort_of_interval(interval: Interval)
    ensures
        interval.is_all_spec() <==> interval.start@ == Seq::<u8>::empty() && interval.end is None,
        interval.is_singleton_spec() <==> (interval.end matches Some(end) && end@
            == interval.start@ + seq![0u8]),
{
    assert(interval.start@.push(0u8) =~= interval.start@ + seq![0u8]);
    if interval.start@.len() == 0 {
        assert(interval.start@ =~= Seq::<u8>::empty());
    }
}

/// A query depends on a table as a whole exactly where it searched the table, or
/// read all of one of its indexes, at any place of what it read.
pub proof fn whole_tables_are_scanned(reads: ReadSet, tablet_id: Seq<char>)
    ensures
        reads.dependencies().contains(DependencyView::TableScan { tablet_id }) <==> {
            ||| exists|k: int|
                0 <= k < reads.searched@.len() && (#[trigger] reads.searched@[k])@ == tablet_id
            ||| exists|i: int, j: int|
                #![trigger reads.indexed@[i].intervals@[j]]
                0 <= i < reads.indexed@.len() && 0 <= j < reads.indexed@[i].intervals@.len()
                    && reads.indexed@[i].intervals@[j].start@.len() == 0
                    && reads.indexed@[i].intervals@[j].end is None
                    && reads.indexed@[i].index.tablet_id@ == tablet_id
        },
{
}

/// An interval that was read of a table not read as a whole is depended on: as a
/// point where it is one of a single key, and otherwise with its own bounds.
pub proof fn intervals_keep_their_precision(reads: ReadSet, i: int, j: int)
    requires
        0 <= i < reads.indexed@.len(),
        0 <= j < reads.indexed@[i].intervals@.len(),
        !reads.dependencies().contains(
            DependencyView::TableScan { tablet_id: reads.indexed@[i].index.tablet_id@ },
        ),
    ensures
        ({
            let index = IndexView {
                tablet_id: reads.indexed@[i].index.tablet_id@,
                descriptor: reads.indexed@[i].index.descriptor@,
            };
            let interval = reads.indexed@[i].intervals@[j];
            match interval.end {
                Some(end) => if end@ == interval.start@.push(0) {
                    reads.dependencies().contains(
                        DependencyView::Point { index, key: interval.start@ },
                    )
                } else {
                    reads.dependencies().contains(
                        DependencyView::IndexRange {
                            index,
                            start_inclusive: interval.start@,
                            end_exclusive: Some(end@),
                        },
                    )
                },
                None => reads.dependencies().contains(
                    DependencyView::IndexRange {
                        index,
                        start_inclusive: interval.start@,
                        end_exclusive: None,
                    },
                ),
            }
        }),
{
    let interval = reads.indexed@[i].intervals@[j];
    let index = reads.indexed@[i].index@;
    assert(reads.reads(i, j));
    let d = interval_dependency(index, interval);
    assert(d.tablet_id() == index.tablet_id);
    assert(reads.dependencies().contains(d));
}

/// A write that is known to have no key in any interval of its table, where the
/// table was not read as a whole, hits no dependency.
pub proof fn writes_beside_the_reads_hit_nothing(reads: ReadSet, write: WriteView, d: DependencyView)
    requires
        reads.dependencies().contains(d),
        !reads.dependencies().contains(DependencyView::TableScan { tablet_id: write.tablet_id }),
        write.index_keys_complete,
        forall|i: int, j: int|
            #![trigger reads.indexed@[i].intervals@[j]]
            0 <= i < reads.indexed@.len() && 0 <= j < reads.indexed@[i].intervals@.len()
                && reads.indexed@[i].index.tablet_id@ == write.tablet_id ==> {
                &&& write.descriptors.contains(reads.indexed@[i].index.descriptor@)
                &&& forall|key: Seq<u8>| #[trigger]
                    write.keys.contains((reads.indexed@[i].index.descriptor@, key))
                        ==> !reads.indexed@[i].intervals@[j].holds(key)
            },
    ensures
        !invalidation::dependency_matches(d, write),
{
    match d {
        DependencyView::TableScan { tablet_id } => {},
        _ => {
            let (i, j) = choose|i: int, j: int|
                #![trigger reads.indexed@[i].intervals@[j]]
                reads.reads(i, j) && d == interval_dependency(
                    reads.indexed@[i].index@,
                    reads.indexed@[i].intervals@[j],
                );
            let interval = reads.indexed@[i].intervals@[j];
            if d.tablet_id() == write.tablet_id {
                if interval.is_singleton_spec() {
                    singleton_holds_one_key(interval, interval.start@);
                }
            }
        },
    }
}

} // verus!
