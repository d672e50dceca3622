//! Coarse table-level hints about which nodes want which commits.
//!
//! An entry that has expired or is late may leave a node out, so that nothing
//! that has to be right may rest on these hints: invalidation goes through the
//! registrations that owners keep.

use vstd::prelude::*;

use crate::ordered::{NameSet, SortedMap};
use crate::partition;
use crate::partition::TableName;
use crate::text;

verus! {

pub const SELECTIVE_DELIVERY_KV_BUCKET: &'static str = "convex_delta_interest";

pub const NODE_SUBJECT_PREFIX: &'static str = "convex.commits.node";

/// How long a registration counts, in milliseconds.
pub const INTEREST_MAX_AGE_MS: u64 = 90_000;

/// How long the store keeps a registration, in milliseconds.
pub const INTEREST_STORE_AGE_MS: u64 = 360_000;

/// The tables that a node asked for, and when.
#[derive(Clone, Debug)]
pub struct InterestRegistration {
    pub tables: Vec<String>,
    pub updated_at_ms: u64,
}

impl InterestRegistration {
    /// The registration is young enough to count.
    pub open spec fn fresh_at(&self, now_ms: u64) -> bool {
        now_ms - self.updated_at_ms <= INTEREST_MAX_AGE_MS
    }

    /// One of the registered names is a table name and among the tables.
    pub open spec fn wants(&self, tables: Set<Seq<char>>) -> bool {
        exists|i: int|
            0 <= i < self.tables@.len() && partition::is_table_name((#[trigger] self.tables@[i])@)
                && tables.contains(self.tables@[i]@)
    }

    /// Whether the registration is young enough to count.
    pub fn is_fresh(&self, now_ms: u64) -> (r: bool)
        ensures
            r == self.fresh_at(now_ms),
    {
        now_ms <= self.updated_at_ms || now_ms - self.updated_at_ms <= INTEREST_MAX_AGE_MS
    }

    /// Whether the node wants one of the tables.
    pub fn matches(&self, tables: &NameSet) -> (r: bool)
        requires
            tables.wf(),
        ensures
            r == self.wants(tables@.dom()),
    {
        let mut i: usize = 0;
        while i < self.tables.len()
            invariant
                tables.wf(),
                i <= self.tables@.len(),
                forall|k: int|
                    0 <= k < i ==> !(partition::is_table_name((#[trigger] self.tables@[k])@)
                        && tables@.dom().contains(self.tables@[k]@)),
            decreases self.tables@.len() - i,
        {
            if TableName::parse(self.tables[i].as_str()).is_some() && tables.contains_key(
                &self.tables[i],
            ) {
                assert(self.wants(tables@.dom()));
                return true;
            }
            i = i + 1;
        }
        false
    }
}

/// The nodes among the first `n` whose registration counts and names one of
/// the tables.
pub open spec fn interested(
    nodes: Seq<Seq<char>>,
    registrations: Seq<InterestRegistration>,
    now_ms: u64,
    tables: Set<Seq<char>>,
    n: nat,
) -> Seq<Seq<char>>
    decreases n,
{
    if n == 0 {
        Seq::empty()
    } else {
        let before = interested(nodes, registrations, now_ms, tables, (n - 1) as nat);
        if registrations[n - 1].fresh_at(now_ms) && registrations[n - 1].wants(tables) {
            before.push(nodes[n - 1])
        } else {
            before
        }
    }
}

/// The nodes whose registration counts and names one of the tables, in order.
pub fn interested_nodes_for_tables_from_cache(
    cache: &SortedMap<String, InterestRegistration>,
    now_ms: u64,
    tables: &NameSet,
) -> (r: Vec<String>)
    requires
        cache.wf(),
        tables.wf(),
    ensures
        text::texts(r@) == interested(
            cache.keys(),
            cache.values(),
            now_ms,
            tables@.dom(),
            cache.keys().len(),
        ),
{
    let mut out: Vec<String> = Vec::new();
    let mut i: usize = 0;
    proof {
        cache.entries_agree();
        assert(text::texts(out@) =~= Seq::empty());
    }
    while i < cache.len()
        invariant
            cache.wf(),
            tables.wf(),
            i <= cache.keys().len(),
            cache.keys().len() == cache.values().len(),
            text::texts(out@) == interested(
                cache.keys(),
                cache.values(),
                now_ms,
                tables@.dom(),
                i as nat,
            ),
        decreases cache.keys().len() - i,
    {
        let registration = cache.value_at(i);
        if registration.is_fresh(now_ms) && registration.matches(tables) {
            let ghost earlier = out@;
            let node = cache.key_at(i).clone();
            out.push(node);
            assert(text::texts(out@) =~= text::texts(earlier).push(node@));
        }
        i = i + 1;
    }
    out
}

/// What the nodes of the cluster have asked for, as this node knows it.
#[derive(Clone, Debug)]
pub struct SelectiveDeliveryRegistry {
    node_name: String,
    cache: SortedMap<String, InterestRegistration>,
}

impl SelectiveDeliveryRegistry {
    /// This node's name.
    pub closed spec fn name(&self) -> Seq<char> {
        self.node_name@
    }

    /// The registration of each node.
    pub closed spec fn registrations(&self) -> Map<Seq<char>, InterestRegistration> {
        self.cache@
    }

    /// The nodes that have a registration, in order.
    pub closed spec fn nodes(&self) -> Seq<Seq<char>> {
        self.cache.keys()
    }

    /// The registrations, in the order of their nodes.
    pub closed spec fn entries(&self) -> Seq<InterestRegistration> {
        self.cache.values()
    }

    pub closed spec fn wf(&self) -> bool {
        self.cache.wf()
    }

    /// The nodes and their registrations agree with the map.
    pub proof fn entries_agree(&self)
        requires
            self.wf(),
        ensures
            self.nodes().len() == self.entries().len(),
            forall|node: Seq<char>|
                self.registrations().dom().contains(node) <==> self.nodes().contains(node),
            forall|i: int|
                0 <= i < self.nodes().len() ==> self.registrations().dom().contains(
                    #[trigger] self.nodes()[i],
                ) && self.registrations()[self.nodes()[i]] == self.entries()[i],
    {
        self.cache.entries_agree();
    }

    pub fn new(node_name: String) -> (r: Self)
        ensures
            r.wf(),
            r.name() == node_name@,
            r.registrations() == Map::<Seq<char>, InterestRegistration>::empty(),
    {
        SelectiveDeliveryRegistry { node_name, cache: SortedMap::new() }
    }

    /// Takes in what the store holds of a node. An entry that does not read as
    /// a registration changes nothing.
    pub fn observe_put(&mut self, node: String, registration: Option<InterestRegistration>)
        requires
            old(self).wf(),
        ensures
            final(self).wf(),
            final(self).name() == old(self).name(),
            final(self).registrations() == (match registration {
                Some(registration) => old(self).registrations().insert(node@, registration),
                None => old(self).registrations(),
            }),
    {
        match registration {
            Some(registration) => {
                self.cache.insert(node, registration);
            },
            None => {},
        }
    }

    /// Takes in that the store has dropped a node.
    pub fn observe_removal(&mut self, node: &String)
        requires
            old(self).wf(),
        ensures
            final(self).wf(),
            final(self).name() == old(self).name(),
            final(self).registrations() == old(self).registrations().remove(node@),
    {
        self.cache.remove(node);
    }

    /// The registration that announces what this node wants.
    pub fn local_registration(tables: &NameSet, now_ms: u64) -> (r: InterestRegistration)
        requires
            tables.wf(),
        ensures
            text::texts(r.tables@) == tables.keys(),
            r.updated_at_ms == now_ms,
    {
        let mut names: Vec<String> = Vec::new();
        let mut i: usize = 0;
        while i < tables.len()
            invariant
                tables.wf(),
                i <= tables.keys().len(),
                text::texts(names@) == tables.keys().take(i as int),
            decreases tables.keys().len() - i,
        {
            let ghost earlier = names@;
            let name = tables.key_at(i).clone();
            names.push(name);
            assert(text::texts(names@) =~= text::texts(earlier).push(name@));
            assert(tables.keys().take(i + 1) =~= tables.keys().take(i as int).push(name@));
            i = i + 1;
        }
        assert(tables.keys().take(i as int) =~= tables.keys());
        InterestRegistration { tables: names, updated_at_ms: now_ms }
    }

    /// Takes in that this node's registration has been stored.
    pub fn local_interest_published(&mut self, registration: InterestRegistration)
        requires
            old(self).wf(),
        ensures
            final(self).wf(),
            final(self).name() == old(self).name(),
            final(self).registrations() == old(self).registrations().insert(
                old(self).name(),
                registration,
            ),
    {
        let node = self.node_name.clone();
        self.cache.insert(node, registration);
    }

    /// The nodes that want one of the tables, in order. The caller reads the
    /// clock.
    pub fn interested_nodes_for_tables(&self, now_ms: u64, tables: &NameSet) -> (r: Vec<String>)
        requires
            self.wf(),
            tables.wf(),
        ensures
            text::texts(r@) == interested(
                self.nodes(),
                self.entries(),
                now_ms,
                tables@.dom(),
                self.nodes().len(),
            ),
    {
        interested_nodes_for_tables_from_cache(&self.cache, now_ms, tables)
    }

    /// The subject on which a node hears what it asked for.
    pub fn node_subject(node_name: &str) -> (r: String)
        ensures
            r@ == subject_of_node(node_name@),
    {
        let mut s = NODE_SUBJECT_PREFIX.to_owned();
        s.append(".");
        s.append(node_name);
        s
    }
}

/// The subject on which a node hears what it asked for.
pub open spec fn subject_of_node(node_name: Seq<char>) -> Seq<char> {
    NODE_SUBJECT_PREFIX@ + "."@ + node_name
}

/// Nobody is interested where no table is touched, and nobody whose
/// registration is too old.
pub proof fn stale_and_empty_interest_is_silent(
    nodes: Seq<Seq<char>>,
    registrations: Seq<InterestRegistration>,
    now_ms: u64,
    tables: Set<Seq<char>>,
    n: nat,
)
    requires
        n <= nodes.len(),
        n <= registrations.len(),
        tables.is_empty() || forall|i: int|
            0 <= i < registrations.len() ==> !(#[trigger] registrations[i]).fresh_at(now_ms),
    ensures
        interested(nodes, registrations, now_ms, tables, n) == Seq::<Seq<char>>::empty(),
    decreases n,
{
    if n > 0 {
        stale_and_empty_interest_is_silent(nodes, registrations, now_ms, tables, (n - 1) as nat);
    }
}

/// A registration wants touched tables exactly where one of the names that it
/// lists, at any place, is a table name and among them.
pub proof fn any_listed_table_counts(
    registration: InterestRegistration,
    tables: Set<Seq<char>>,
    i: int,
)
    ensures
        0 <= i < registration.tables@.len() && partition::is_table_name(registration.tables@[i]@)
            && tables.contains(registration.tables@[i]@) ==> registration.wants(tables),
        registration.wants(tables) ==> exists|k: int|
            0 <= k < registration.tables@.len() && partition::is_table_name(
                (#[trigger] registration.tables@[k])@,
            ) && tables.contains(registration.tables@[k]@),
{
}

/// A registration that lists more tables, or a commit that touches more, never
/// ends the interest, and neither the order nor a repetition of the names
/// matters.
pub proof fn interest_only_grows(
    registration: InterestRegistration,
    other: InterestRegistration,
    tables: Set<Seq<char>>,
    more: Set<Seq<char>>,
)
    requires
        registration.wants(tables),
        tables.subset_of(more),
        forall|i: int|
            0 <= i < registration.tables@.len() ==> exists|k: int|
                0 <= k < other.tables@.len() && (#[trigger] other.tables@[k])@ == (
                #[trigger] registration.tables@[i])@,
    ensures
        other.wants(more),
{
    let i = choose|i: int|
        0 <= i < registration.tables@.len() && partition::is_table_name(
            (#[trigger] registration.tables@[i])@,
        ) && tables.contains(registration.tables@[i]@);
    let k = choose|k: int|
        0 <= k < other.tables@.len() && (#[trigger] other.tables@[k])@
            == registration.tables@[i]@;
    assert(more.contains(other.tables@[k]@));
}

/// A registration counts for ninety seconds from when it was made, and also
/// where the clock was set back since.
pub proof fn registrations_count_for_ninety_seconds(registration: InterestRegistration, now_ms: u64)
    ensures
        registration.fresh_at(now_ms) <==> now_ms <= registration.updated_at_ms + 90_000,
{
}

/// The nodes that are told of a commit are exactly those whose registration,
/// wherever it stands, is no older than ninety seconds and lists a touched table
/// at any place.
pub proof fn interested_nodes_are_told(
    nodes: Seq<Seq<char>>,
    registrations: Seq<InterestRegistration>,
    now_ms: u64,
    tables: Set<Seq<char>>,
    n: nat,
    node: Seq<char>,
)
    requires
        n <= nodes.len(),
        n <= registrations.len(),
    ensures
        interested(nodes, registrations, now_ms, tables, n).contains(node) <==> exists|
            i: int,
            k: int,
        |
            0 <= i < n && nodes[i] == node && now_ms <= registrations[i].updated_at_ms + 90_000
                && 0 <= k < registrations[i].tables@.len() && partition::is_table_name(
                (#[trigger] registrations[i].tables@[k])@,
            ) && tables.contains(registrations[i].tables@[k]@),
    decreases n,
{
    let told = interested(nodes, registrations, now_ms, tables, n);
    if n == 0 {
        assert(!told.contains(node));
    } else {
        interested_nodes_are_told(nodes, registrations, now_ms, tables, (n - 1) as nat, node);
        let before = interested(nodes, registrations, now_ms, tables, (n - 1) as nat);
        let last = registrations[n - 1];
        if last.fresh_at(now_ms) && last.wants(tables) {
            assert(told == before.push(nodes[n - 1]));
            assert(told[before.len() as int] == nodes[n - 1]);
            if before.contains(node) {
                let at = before.index_of(node);
                assert(told[at] == node);
            }
            if told.contains(node) && !before.contains(node) {
                let at = told.index_of(node);
                assert(at == before.len()) by {
                    if at < before.len() {
                        assert(before[at] == node);
                    }
                }
                assert(nodes[n - 1] == node);
                let k = choose|k: int|
                    0 <= k < last.tables@.len() && partition::is_table_name(
                        (#[trigger] last.tables@[k])@,
                    ) && tables.contains(last.tables@[k]@);
                assert(partition::is_table_name(registrations[n - 1].tables@[k]@));
            }
        }
    }
}

/// The nodes are told of in the order in which their registrations stand, each
/// once.
pub proof fn interested_nodes_keep_their_order(
    nodes: Seq<Seq<char>>,
    registrations: Seq<InterestRegistration>,
    now_ms: u64,
    tables: Set<Seq<char>>,
    n: nat,
)
    requires
        n <= nodes.len(),
        n <= registrations.len(),
        forall|i: int, j: int|
            0 <= i < j < nodes.len() ==> text::text_before(
                #[trigger] nodes[i],
                #[trigger] nodes[j],
            ),
    ensures
        forall|i: int, j: int|
            0 <= i < j < interested(nodes, registrations, now_ms, tables, n).len()
                ==> text::text_before(
                #[trigger] interested(nodes, registrations, now_ms, tables, n)[i],
                #[trigger] interested(nodes, registrations, now_ms, tables, n)[j],
            ),
        forall|i: int|
            0 <= i < interested(nodes, registrations, now_ms, tables, n).len() ==> exists|k: int|
                0 <= k < n && #[trigger] nodes[k] == #[trigger] interested(
                    nodes,
                    registrations,
                    now_ms,
                    tables,
                    n,
                )[i],
    decreases n,
{
    if n > 0 {
        interested_nodes_keep_their_order(nodes, registrations, now_ms, tables, (n - 1) as nat);
        let before = interested(nodes, registrations, now_ms, tables, (n - 1) as nat);
        let told = interested(nodes, registrations, now_ms, tables, n);
        assert forall|i: int, j: int| 0 <= i < j < told.len() implies text::text_before(
            #[trigger] told[i],
            #[trigger] told[j],
        ) by {
            assert(told[i] == before[i]);
            let k = choose|k: int| 0 <= k < n - 1 && #[trigger] nodes[k] == before[i];
            if j == before.len() {
                assert(text::text_before(nodes[k], nodes[n - 1]));
            } else {
                assert(told[j] == before[j]);
            }
        }
        assert forall|i: int| 0 <= i < told.len() implies exists|k: int|
            0 <= k < n && #[trigger] nodes[k] == #[trigger] told[i] by {
            if i < before.len() {
                assert(told[i] == before[i]);
                let k = choose|k: int| 0 <= k < n - 1 && #[trigger] nodes[k] == before[i];
                assert(nodes[k] == told[i]);
            } else {
                assert(nodes[n - 1] == told[i]);
            }
        }
    }
}

/// Each node has a subject of its own.
pub proof fn node_subjects_differ(a: Seq<char>, b: Seq<char>)
    ensures
        subject_of_node(a) == "convex.commits.node"@ + "."@ + a,
        subject_of_node(a) == subject_of_node(b) ==> a == b,
{
    let prefix = NODE_SUBJECT_PREFIX@ + "."@;
    if subject_of_node(a) == subject_of_node(b) {
        assert((prefix + a).skip(prefix.len() as int) =~= a);
        assert((prefix + b).skip(prefix.len() as int) =~= b);
    }
}

} // verus!
