//! The directory of the cluster's nodes.
//!
//! Placement answers which partition owns a piece of data. Membership answers
//! which nodes can serve that partition right now. Keeping the two apart keeps
//! placement from becoming an address book.

use vstd::prelude::*;
use vstd::std_specs::convert::FromSpecImpl;

use crate::node_addresses::NodeAddresses;
use crate::ordered::{OrderedKey, SortedMap};
use crate::partition::PartitionId;
use crate::text;
use crate::text::Relation;

verus! {

/// Identifies a state of the directory.
#[derive(Clone, Copy, Debug, PartialEq, Eq, PartialOrd, Ord, Structural)]
pub struct MembershipVersion(pub u64);

impl MembershipVersion {
    /// The version of the directory that a cluster starts with.
    pub fn bootstrap() -> (r: Self)
        ensures
            r == MembershipVersion(0),
    {
        MembershipVersion(0)
    }

    pub fn new(version: u64) -> (r: Self)
        ensures
            r == MembershipVersion(version),
    {
        MembershipVersion(version)
    }
}

impl From<MembershipVersion> for u64 {
    fn from(version: MembershipVersion) -> (r: u64) {
        version.0
    }
}

impl FromSpecImpl<MembershipVersion> for u64 {
    open spec fn obeys_from_spec() -> bool {
        true
    }

    open spec fn from_spec(version: MembershipVersion) -> u64 {
        version.0
    }
}

/// An error of the directory.
#[derive(Clone, Debug, PartialEq, Eq)]
pub enum MembershipError {
    EmptyNodeId,
    EmptyAddress { node_id: String },
    RegistrationConflicts { node_id: String },
    NotInitialized,
}

impl MembershipError {
    /// The text of the error.
    pub open spec fn text(self) -> Seq<char> {
        match self {
            MembershipError::EmptyNodeId => "cluster node id cannot be empty"@,
            MembershipError::EmptyAddress { node_id } => {
                "cluster membership node "@ + node_id@ + " cannot have an empty gRPC address"@
            },
            MembershipError::RegistrationConflicts { node_id } => {
                "Membership: failed to register node "@ + node_id@ + " after CAS retries"@
            },
            MembershipError::NotInitialized => {
                "Membership: failed to initialize and no current snapshot exists"@
            },
        }
    }

    /// The text of the error.
    pub fn message(&self) -> (r: String)
        ensures
            r@ == self.text(),
    {
        match self {
            MembershipError::EmptyNodeId => "cluster node id cannot be empty".to_owned(),
            MembershipError::EmptyAddress { node_id } => {
                let mut s = "cluster membership node ".to_owned();
                s.append(node_id.as_str());
                s.append(" cannot have an empty gRPC address");
                s
            },
            MembershipError::RegistrationConflicts { node_id } => {
                let mut s = "Membership: failed to register node ".to_owned();
                s.append(node_id.as_str());
                s.append(" after CAS retries");
                s
            },
            MembershipError::NotInitialized => {
                "Membership: failed to initialize and no current snapshot exists".to_owned()
            },
        }
    }
}

/// The text can name a node: it is not blank.
pub open spec fn is_node_id(s: Seq<char>) -> bool {
    text::trim(s).len() > 0
}

/// Names a node of the cluster.
#[derive(Debug, PartialEq, Eq, PartialOrd, Ord)]
pub struct ClusterNodeId {
    id: String,
}

impl View for ClusterNodeId {
    type V = Seq<char>;

    closed spec fn view(&self) -> Seq<char> {
        self.id@
    }
}

impl ClusterNodeId {
    #[verifier::type_invariant]
    spec fn names_node(self) -> bool {
        is_node_id(self.id@)
    }

    /// Reads the name of a node. A blank one is refused.
    pub fn new(node_id: &str) -> (r: Result<Self, MembershipError>)
        ensures
            r is Ok <==> is_node_id(node_id@),
            r matches Ok(id) ==> id@ == node_id@,
            r matches Err(error) ==> error is EmptyNodeId,
    {
        if text::trimmed(node_id).as_str().unicode_len() == 0 {
            return Err(MembershipError::EmptyNodeId);
        }
        Ok(ClusterNodeId { id: node_id.to_owned() })
    }

    pub fn as_str(&self) -> (r: &str)
        ensures
            r@ == self@,
            is_node_id(self@),
    {
        proof {
            use_type_invariant(&*self);
        }
        self.id.as_str()
    }

    pub fn duplicate(&self) -> (r: Self)
        ensures
            r@ == self@,
            is_node_id(self@),
    {
        proof {
            use_type_invariant(&*self);
        }
        ClusterNodeId { id: self.id.clone() }
    }
}

impl Clone for ClusterNodeId {
    fn clone(&self) -> (r: Self)
        ensures
            r@ == self@,
    {
        self.duplicate()
    }
}

impl OrderedKey for ClusterNodeId {
    type Model = Seq<char>;

    open spec fn model(&self) -> Seq<char> {
        self@
    }

    open spec fn before(a: Seq<char>, b: Seq<char>) -> bool {
        text::text_before(a, b)
    }

    proof fn before_is_total(a: Seq<char>, b: Seq<char>, c: Seq<char>) {
        text::text_order_is_total(a, b, c);
    }

    fn relation(&self, other: &Self) -> (r: Relation) {
        text::relate_text(self.id.as_str(), other.id.as_str())
    }
}

/// What the directory says of a node.
#[derive(Clone, Debug, PartialEq, Eq)]
pub struct NodeMembership {
    pub node_id: ClusterNodeId,
    pub partition: PartitionId,
    pub grpc_addr: String,
    pub http_origin: Option<String>,
    pub raft_addr: Option<String>,
    pub generation: u64,
    pub draining: bool,
    /// The count of renewals, kept while the shared entry is updated. There is
    /// none for a static entry, which does not expire.
    pub lease_renewal_sequence: Option<u64>,
    /// The deadline by the writer's clock, for diagnosis. Whether a node lives
    /// must not rest on it.
    pub heartbeat_expires_at_ms: Option<u64>,
}

/// What a [`NodeMembership`] states.
#[verifier::ext_equal]
pub struct NodeView {
    pub node_id: Seq<char>,
    pub partition: PartitionId,
    pub grpc_addr: Seq<char>,
    pub http_origin: Option<Seq<char>>,
    pub raft_addr: Option<Seq<char>>,
    pub generation: u64,
    pub draining: bool,
    pub lease_renewal_sequence: Option<u64>,
    pub heartbeat_expires_at_ms: Option<u64>,
}

impl View for NodeMembership {
    type V = NodeView;

    open spec fn view(&self) -> NodeView {
        NodeView {
            node_id: self.node_id@,
            partition: self.partition,
            grpc_addr: self.grpc_addr@,
            http_origin: text::optional(self.http_origin),
            raft_addr: text::optional(self.raft_addr),
            generation: self.generation,
            draining: self.draining,
            lease_renewal_sequence: self.lease_renewal_sequence,
            heartbeat_expires_at_ms: self.heartbeat_expires_at_ms,
        }
    }
}

/// Counts the lives of a node, and the renewals within one.
#[derive(Clone, Copy, Debug, PartialEq, Eq, Structural)]
pub struct LeaseRevision {
    pub generation: u64,
    pub renewal_sequence: u64,
}

impl LeaseRevision {
    /// This revision comes before the other.
    pub open spec fn precedes(self, other: Self) -> bool {
        self.generation < other.generation || (self.generation == other.generation
            && self.renewal_sequence < other.renewal_sequence)
    }

    /// Whether this revision comes before the other.
    pub fn is_before(&self, other: &Self) -> (r: bool)
        ensures
            r == self.precedes(*other),
    {
        self.generation < other.generation || (self.generation == other.generation
            && self.renewal_sequence < other.renewal_sequence)
    }
}

/// A static entry, as it is first made.
pub open spec fn static_node(
    node_id: Seq<char>,
    partition: PartitionId,
    grpc_addr: Seq<char>,
) -> NodeView {
    NodeView {
        node_id,
        partition,
        grpc_addr,
        http_origin: None,
        raft_addr: None,
        generation: 0,
        draining: false,
        lease_renewal_sequence: None,
        heartbeat_expires_at_ms: None,
    }
}

impl NodeView {
    /// The revision of the node's lease. An entry without a lease does not
    /// expire.
    pub open spec fn lease_revision(self) -> Option<LeaseRevision> {
        match self.lease_renewal_sequence {
            Some(renewal_sequence) => Some(
                LeaseRevision { generation: self.generation, renewal_sequence },
            ),
            None => if self.heartbeat_expires_at_ms is Some {
                Some(LeaseRevision { generation: self.generation, renewal_sequence: 0 })
            } else {
                None
            },
        }
    }
}

/// Whether two texts that may be missing are the same.
fn same_optional(a: &Option<String>, b: &Option<String>) -> (r: bool)
    ensures
        r == (text::optional(*a) == text::optional(*b)),
{
    match (a, b) {
        (Some(a), Some(b)) => text::same_text(a.as_str(), b.as_str()),
        (None, None) => true,
        _ => false,
    }
}

/// A copy of a text that may be missing.
fn duplicate_optional(a: &Option<String>) -> (r: Option<String>)
    ensures
        text::optional(r) == text::optional(*a),
{
    match a {
        Some(a) => Some(a.clone()),
        None => None,
    }
}

impl NodeMembership {
    /// A static entry. The address is trimmed, and a blank one is refused.
    pub fn new(node_id: ClusterNodeId, partition: PartitionId, grpc_addr: &str) -> (r: Result<
        Self,
        MembershipError,
    >)
        ensures
            r is Ok <==> text::trim(grpc_addr@).len() > 0,
            r matches Ok(node) ==> node@ == static_node(
                node_id@,
                partition,
                text::trim(grpc_addr@),
            ),
            r matches Err(error) ==> error.text() == "cluster membership node "@ + node_id@
                + " cannot have an empty gRPC address"@,
    {
        let grpc_addr = text::trimmed(grpc_addr);
        if grpc_addr.as_str().unicode_len() == 0 {
            return Err(MembershipError::EmptyAddress { node_id: node_id.id });
        }
        Ok(
            NodeMembership {
                node_id,
                partition,
                grpc_addr,
                http_origin: None,
                raft_addr: None,
                generation: 0,
                draining: false,
                lease_renewal_sequence: None,
                heartbeat_expires_at_ms: None,
            },
        )
    }

    /// The revision of the node's lease.
    pub fn lease_revision(&self) -> (r: Option<LeaseRevision>)
        ensures
            r == self@.lease_revision(),
    {
        match self.lease_renewal_sequence {
            Some(renewal_sequence) => Some(
                LeaseRevision { generation: self.generation, renewal_sequence },
            ),
            None => match self.heartbeat_expires_at_ms {
                Some(_) => Some(
                    LeaseRevision { generation: self.generation, renewal_sequence: 0 },
                ),
                None => None,
            },
        }
    }

    /// Whether two entries say the same.
    pub fn same(&self, other: &Self) -> (r: bool)
        ensures
            r == (self@ == other@),
    {
        text::same_text(self.node_id.as_str(), other.node_id.as_str()) && self.partition.0
            == other.partition.0 && text::same_text(
            self.grpc_addr.as_str(),
            other.grpc_addr.as_str(),
        ) && same_optional(&self.http_origin, &other.http_origin) && same_optional(
            &self.raft_addr,
            &other.raft_addr,
        ) && self.generation == other.generation && self.draining == other.draining
            && self.lease_renewal_sequence == other.lease_renewal_sequence
            && self.heartbeat_expires_at_ms == other.heartbeat_expires_at_ms
    }

    pub fn duplicate(&self) -> (r: Self)
        ensures
            r@ == self@,
    {
        NodeMembership {
            node_id: self.node_id.duplicate(),
            partition: self.partition,
            grpc_addr: self.grpc_addr.clone(),
            http_origin: duplicate_optional(&self.http_origin),
            raft_addr: duplicate_optional(&self.raft_addr),
            generation: self.generation,
            draining: self.draining,
            lease_renewal_sequence: self.lease_renewal_sequence,
            heartbeat_expires_at_ms: self.heartbeat_expires_at_ms,
        }
    }
}

/// A state of the directory.
#[derive(Clone, Debug)]
pub struct MembershipSnapshot {
    version: MembershipVersion,
    nodes: SortedMap<ClusterNodeId, NodeMembership>,
}

/// What a [`MembershipSnapshot`] states.
#[verifier::ext_equal]
pub struct SnapshotView {
    pub version: u64,
    pub nodes: Map<Seq<char>, NodeView>,
}

/// The views of entries.
pub open spec fn nodes_view(nodes: Map<Seq<char>, NodeMembership>) -> Map<Seq<char>, NodeView> {
    Map::new(|id: Seq<char>| nodes.dom().contains(id), |id: Seq<char>| nodes[id]@)
}

impl View for MembershipSnapshot {
    type V = SnapshotView;

    closed spec fn view(&self) -> SnapshotView {
        SnapshotView { version: self.version.0, nodes: nodes_view(self.nodes@) }
    }
}

/// The entries by name, a later one in place of an earlier one.
pub open spec fn by_name(nodes: Seq<NodeView>) -> Map<Seq<char>, NodeView>
    decreases nodes.len(),
{
    if nodes.len() == 0 {
        Map::empty()
    } else {
        by_name(nodes.drop_last()).insert(nodes.last().node_id, nodes.last())
    }
}

/// The views of a list of entries.
pub open spec fn node_list(nodes: Seq<NodeMembership>) -> Seq<NodeView> {
    Seq::new(nodes.len(), |i: int| nodes[i]@)
}

/// The directory once the node has asked to be in it.
///
/// An entry of an older life of the node is refused. Every other one counts as
/// a renewal.
pub open spec fn registered(snapshot: SnapshotView, node: NodeView) -> SnapshotView {
    let known = snapshot.nodes.dom().contains(node.node_id);
    let existing = snapshot.nodes[node.node_id];
    if known && node.generation < existing.generation {
        snapshot
    } else {
        let renewals = if known && existing.lease_revision() is Some {
            existing.lease_revision()->Some_0.renewal_sequence
        } else {
            0
        };
        let renewed = NodeView {
            lease_renewal_sequence: Some(
                if renewals < u64::MAX {
                    (renewals + 1) as u64
                } else {
                    u64::MAX
                },
            ),
            ..node
        };
        if known && existing == renewed {
            snapshot
        } else {
            SnapshotView {
                version: if snapshot.version < u64::MAX {
                    (snapshot.version + 1) as u64
                } else {
                    u64::MAX
                },
                nodes: snapshot.nodes.insert(node.node_id, renewed),
            }
        }
    }
}

impl MembershipSnapshot {
    /// Each entry stands under its own name.
    pub closed spec fn wf(&self) -> bool {
        &&& self.nodes.wf()
        &&& forall|id: Seq<char>|
            self.nodes@.dom().contains(id) ==> (#[trigger] self.nodes@[id])@.node_id == id
    }

    /// The names in the directory, in order.
    pub closed spec fn names(&self) -> Seq<Seq<char>> {
        self.nodes.keys()
    }

    /// The names and the entries agree.
    pub proof fn entries_agree(&self)
        requires
            self.wf(),
        ensures
            forall|id: Seq<char>| self@.nodes.dom().contains(id) <==> self.names().contains(id),
            forall|i: int, j: int|
                0 <= i < j < self.names().len() ==> text::text_before(
                    #[trigger] self.names()[i],
                    #[trigger] self.names()[j],
                ),
            forall|id: Seq<char>|
                self@.nodes.dom().contains(id) ==> (#[trigger] self@.nodes[id]).node_id == id,
    {
        self.nodes.entries_agree();
    }

    pub fn new(version: MembershipVersion, nodes: Vec<NodeMembership>) -> (r: Self)
        ensures
            r.wf(),
            r@ == (SnapshotView { version: version.0, nodes: by_name(node_list(nodes@)) }),
    {
        let mut map: SortedMap<ClusterNodeId, NodeMembership> = SortedMap::new();
        let ghost list = node_list(nodes@);
        let mut i: usize = 0;
        assert(nodes_view(map@) =~= by_name(list.take(0)));
        while i < nodes.len()
            invariant
                i <= nodes@.len(),
                list == node_list(nodes@),
                map.wf(),
                forall|id: Seq<char>|
                    map@.dom().contains(id) ==> (#[trigger] map@[id])@.node_id == id,
                nodes_view(map@) == by_name(list.take(i as int)),
            decreases nodes@.len() - i,
        {
            let node = nodes[i].duplicate();
            let ghost before = map@;
            let ghost stated = node@;
            map.insert(node.node_id.duplicate(), node);
            proof {
                assert(list.take(i + 1).drop_last() =~= list.take(i as int));
                assert(list.take(i + 1).last() == stated);
                assert(nodes_view(map@) =~= nodes_view(before).insert(stated.node_id, stated));
            }
            i = i + 1;
        }
        assert(list.take(i as int) =~= list);
        MembershipSnapshot { version, nodes: map }
    }

    pub fn version(&self) -> (r: MembershipVersion)
        ensures
            r.0 == self@.version,
    {
        self.version
    }

    /// The entries, by name.
    pub fn nodes(&self) -> (r: &SortedMap<ClusterNodeId, NodeMembership>)
        requires
            self.wf(),
        ensures
            r.wf(),
            nodes_view(r@) == self@.nodes,
            r.keys() == self.names(),
    {
        &self.nodes
    }

    pub fn duplicate(&self) -> (r: Self)
        requires
            self.wf(),
        ensures
            r.wf(),
            r@ == self@,
    {
        let r = self.keep(&Self::everybody(self.nodes.len()), Ghost(Set::full()));
        assert(r@ =~= self@);
        r
    }

    fn everybody(n: usize) -> (r: Vec<bool>)
        ensures
            r@ == Seq::new(n as nat, |i: int| true),
    {
        let mut out: Vec<bool> = Vec::new();
        while out.len() < n
            invariant
                out@.len() <= n,
                forall|i: int| 0 <= i < out@.len() ==> out@[i],
            decreases n - out@.len(),
        {
            out.push(true);
        }
        assert(out@ =~= Seq::new(n as nat, |i: int| true));
        out
    }

    /// The directory with the chosen entries only.
    fn keep(&self, chosen: &Vec<bool>, Ghost(ids): Ghost<Set<Seq<char>>>) -> (r: Self)
        requires
            self.wf(),
            chosen@.len() == self.names().len(),
            forall|i: int|
                0 <= i < self.names().len() ==> chosen@[i] == ids.contains(
                    #[trigger] self.names()[i],
                ),
        ensures
            r.wf(),
            r@ == (SnapshotView {
                version: self@.version,
                nodes: self@.nodes.restrict(ids),
            }),
    {
        let mut kept: SortedMap<ClusterNodeId, NodeMembership> = SortedMap::new();
        let ghost names = self.names();
        let mut i: usize = 0;
        while i < self.nodes.len()
            invariant
                self.wf(),
                names == self.names(),
                chosen@.len() == names.len(),
                forall|i: int|
                    0 <= i < names.len() ==> chosen@[i] == ids.contains(#[trigger] names[i]),
                i <= names.len(),
                kept.wf(),
                forall|id: Seq<char>|
                    kept@.dom().contains(id) ==> (#[trigger] kept@[id])@ == self.nodes@[id]@
                        && self.nodes@.dom().contains(id) && ids.contains(id),
                forall|k: int|
                    0 <= k < i && ids.contains(#[trigger] names[k]) ==> kept@.dom().contains(
                        names[k],
                    ),
            decreases names.len() - i,
        {
            if chosen[i] {
                let ghost before = kept@;
                let ghost id = names[i as int];
                proof {
                    self.nodes.entries_agree();
                    assert(self.nodes@.dom().contains(names[i as int]));
                }
                let node = self.nodes.value_at(i).duplicate();
                let ghost stated = node;
                kept.insert(self.nodes.key_at(i).duplicate(), node);
                proof {
                    assert(kept@ == before.insert(id, stated));
                    assert forall|x: Seq<char>| kept@.dom().contains(x) implies (
                    #[trigger] kept@[x])@ == self.nodes@[x]@ && self.nodes@.dom().contains(x)
                        && ids.contains(x) by {
                        if x != id {
                            assert(before.dom().contains(x));
                            assert(before[x] == kept@[x]);
                        }
                    }
                }
            }
            i = i + 1;
        }
        let r = MembershipSnapshot { version: self.version, nodes: kept };
        proof {
            self.nodes.entries_agree();
            assert forall|id: Seq<char>| self.nodes@.dom().contains(id) && ids.contains(
                id,
            ) implies kept@.dom().contains(id) by {
                assert(names.contains(id));
                let k = names.index_of(id);
                assert(names[k] == id);
            }
            assert forall|id: Seq<char>| #[trigger] r@.nodes.dom().contains(
                id,
            ) implies self@.nodes.restrict(ids).dom().contains(id) && r@.nodes[id]
                == self@.nodes.restrict(ids)[id] by {
                assert(kept@[id]@ == self.nodes@[id]@);
            }
            assert forall|id: Seq<char>| #[trigger] self@.nodes.restrict(ids).dom().contains(
                id,
            ) implies r@.nodes.dom().contains(id) by {
                assert(self.nodes@.dom().contains(id));
                assert(kept@.dom().contains(id));
            }
            assert(r@.nodes.dom() =~= self@.nodes.restrict(ids).dom());
            assert(r@.nodes =~= self@.nodes.restrict(ids));
        }
        r
    }

    /// The directory once the node has asked to be in it.
    pub fn with_registered_node(&self, node: NodeMembership) -> (r: Self)
        requires
            self.wf(),
        ensures
            r.wf(),
            r@ == registered(self@, node@),
    {
        let mut node = node;
        let ghost asked = node@;
        let mut previous_renewal: u64 = 0;
        match self.nodes.get(&node.node_id) {
            Some(existing) => {
                if node.generation < existing.generation {
                    return self.duplicate();
                }
                match existing.lease_revision() {
                    Some(revision) => {
                        previous_renewal = revision.renewal_sequence;
                    },
                    None => {},
                }
            },
            None => {},
        }
        node.lease_renewal_sequence = Some(previous_renewal.saturating_add(1));
        let ghost renewed = node@;
        match self.nodes.get(&node.node_id) {
            Some(existing) => {
                if existing.same(&node) {
                    return self.duplicate();
                }
            },
            None => {},
        }
        let copy = self.duplicate();
        let mut nodes = copy.nodes;
        let ghost before = nodes@;
        let ghost stated = node;
        nodes.insert(node.node_id.duplicate(), node);
        let r = MembershipSnapshot {
            version: MembershipVersion(self.version.0.saturating_add(1)),
            nodes,
        };
        proof {
            assert(nodes_view(before) == self@.nodes);
            assert(r@.nodes =~= self@.nodes.insert(asked.node_id, renewed));
        }
        r
    }

    /// Whether two directories say the same.
    pub fn same(&self, other: &Self) -> (r: bool)
        requires
            self.wf(),
            other.wf(),
        ensures
            r == (self@ == other@),
    {
        proof {
            self.nodes.entries_agree();
            other.nodes.entries_agree();
        }
        if self.version.0 != other.version.0 {
            return false;
        }
        if !self.within(other) || !other.within(self) {
            return false;
        }
        assert(self@ =~= other@);
        true
    }

    /// Whether the other directory has every entry of this one.
    fn within(&self, other: &Self) -> (r: bool)
        requires
            self.wf(),
            other.wf(),
        ensures
            r == (forall|id: Seq<char>|
                self@.nodes.dom().contains(id) ==> #[trigger] other@.nodes.dom().contains(id)
                    && other@.nodes[id] == self@.nodes[id]),
    {
        let mut i: usize = 0;
        proof {
            self.nodes.entries_agree();
        }
        while i < self.nodes.len()
            invariant
                self.wf(),
                other.wf(),
                i <= self.names().len(),
                forall|k: int|
                    0 <= k < i ==> other@.nodes.dom().contains(#[trigger] self.names()[k])
                        && other@.nodes[self.names()[k]] == self@.nodes[self.names()[k]],
            decreases self.names().len() - i,
        {
            let ghost id = self.names()[i as int];
            proof {
                self.nodes.entries_agree();
                assert(self@.nodes.dom().contains(id));
                assert(self@.nodes[id] == self.nodes.values()[i as int]@);
            }
            match other.nodes.get(self.nodes.key_at(i)) {
                Some(node) => {
                    if !node.same(self.nodes.value_at(i)) {
                        assert(other@.nodes.dom().contains(id));
                        assert(other@.nodes[id] != self@.nodes[id]);
                        return false;
                    }
                },
                None => {
                    assert(!other@.nodes.dom().contains(id));
                    return false;
                },
            }
            i = i + 1;
        }
        proof {
            self.nodes.entries_agree();
            assert forall|id: Seq<char>| self@.nodes.dom().contains(id) implies #[trigger]
                other@.nodes.dom().contains(id) && other@.nodes[id] == self@.nodes[id] by {
                assert(self.names().contains(id));
                let k = self.names().index_of(id);
                assert(self.names()[k] == id);
            }
        }
        true
    }
}

/// `SystemTime::elapsed` of the Unix epoch: the milliseconds by this machine's
/// clock since then, or nothing where the clock stands before it. Nothing is
/// said of the value, which is the time.
#[verifier::external_body]
fn millis_since_epoch() -> (r: Option<u128>) {
    std::time::SystemTime::UNIX_EPOCH.elapsed().ok().map(|age| age.as_millis())
}

/// The time in milliseconds, within a machine word.
pub fn clamped_millis(elapsed: Option<u128>) -> (r: u64)
    ensures
        r == (match elapsed {
            None => 0,
            Some(millis) => if millis <= u64::MAX {
                millis as u64
            } else {
                u64::MAX
            },
        }),
{
    match elapsed {
        None => 0,
        Some(millis) => if millis <= u64::MAX as u128 {
            millis as u64
        } else {
            u64::MAX
        },
    }
}

/// Returns wall-clock time for persisted heartbeat diagnostics only.
pub fn current_unix_timestamp_millis() -> u64 {
    clamped_millis(millis_since_epoch())
}

/// What an observer knows of a node's lease.
#[derive(Clone, Copy, Debug, PartialEq, Eq, Structural)]
pub struct LeaseObservation {
    pub revision: LeaseRevision,
    /// When the newest renewal was first seen, by the observer's own clock, in
    /// nanoseconds.
    pub last_renewal_observed_at: u64,
    pub expired: bool,
    /// What the writer's deadline and the age of the renewal last said, where
    /// they disagreed.
    pub last_clock_disagreement: Option<ClockDisagreement>,
}

/// The writer's deadline and the age of the renewal disagree.
#[derive(Clone, Copy, Debug, PartialEq, Eq, Structural)]
pub struct ClockDisagreement {
    pub timestamp_is_live: bool,
    pub renewal_is_live: bool,
}

/// The time from one instant to a later one, and none to an earlier one.
pub open spec fn elapsed_since(now: u64, then_at: u64) -> int {
    if now >= then_at {
        now - then_at
    } else {
        0
    }
}

/// What an observer knows of a lease once it has seen a revision of it. A
/// revision that is older than one already seen is passed over.
pub open spec fn observed(
    known: Option<LeaseObservation>,
    revision: LeaseRevision,
    heartbeat_expires_at_ms: Option<u64>,
    observed_at: u64,
    diagnostic_now_ms: u64,
    lease_ttl: u64,
) -> LeaseObservation {
    let seen = match known {
        Some(observation) => observation,
        None => LeaseObservation {
            revision,
            last_renewal_observed_at: observed_at,
            expired: false,
            last_clock_disagreement: None,
        },
    };
    if revision.precedes(seen.revision) {
        seen
    } else {
        let renewed_at = if seen.revision.precedes(revision) {
            observed_at
        } else {
            seen.last_renewal_observed_at
        };
        let live = elapsed_since(observed_at, renewed_at) < lease_ttl;
        LeaseObservation {
            revision,
            last_renewal_observed_at: renewed_at,
            expired: !live,
            last_clock_disagreement: match heartbeat_expires_at_ms {
                Some(expires_at_ms) => if (expires_at_ms > diagnostic_now_ms) != live {
                    Some(
                        ClockDisagreement {
                            timestamp_is_live: expires_at_ms > diagnostic_now_ms,
                            renewal_is_live: live,
                        },
                    )
                } else {
                    None
                },
                None => seen.last_clock_disagreement,
            },
        }
    }
}

/// What an observer takes from the directory: how long a lease lasts, and what
/// it knew of each.
pub struct TrackerView {
    pub lease_ttl: u64,
    pub observations: Map<Seq<char>, LeaseObservation>,
}

impl TrackerView {
    /// What is known of the node's lease.
    pub open spec fn known(self, id: Seq<char>) -> Option<LeaseObservation> {
        if self.observations.dom().contains(id) {
            Some(self.observations[id])
        } else {
            None
        }
    }

    /// The node lives: it is static, or its newest renewal is younger than a
    /// lease, and it is not on its way out.
    pub open spec fn lives(self, node: NodeView, observed_at: u64) -> bool {
        !node.draining && match node.lease_revision() {
            None => true,
            Some(revision) => match self.known(node.node_id) {
                None => 0 < self.lease_ttl,
                Some(seen) => !revision.precedes(seen.revision) && elapsed_since(
                    observed_at,
                    if seen.revision.precedes(revision) {
                        observed_at
                    } else {
                        seen.last_renewal_observed_at
                    },
                ) < self.lease_ttl,
            },
        }
    }

    /// What is known once the directory has been seen.
    pub open spec fn after(
        self,
        snapshot: SnapshotView,
        observed_at: u64,
        diagnostic_now_ms: u64,
    ) -> TrackerView {
        TrackerView {
            lease_ttl: self.lease_ttl,
            observations: Map::new(
                |id: Seq<char>|
                    self.observations.dom().contains(id) || (snapshot.nodes.dom().contains(id)
                        && snapshot.nodes[id].lease_revision() is Some),
                |id: Seq<char>|
                    if snapshot.nodes.dom().contains(id)
                        && snapshot.nodes[id].lease_revision() is Some {
                        observed(
                            self.known(id),
                            snapshot.nodes[id].lease_revision()->Some_0,
                            snapshot.nodes[id].heartbeat_expires_at_ms,
                            observed_at,
                            diagnostic_now_ms,
                            self.lease_ttl,
                        )
                    } else {
                        self.observations[id]
                    },
            ),
        }
    }

    /// The directory with the living nodes only.
    pub open spec fn living(self, snapshot: SnapshotView, observed_at: u64) -> SnapshotView {
        SnapshotView {
            version: snapshot.version,
            nodes: snapshot.nodes.restrict(
                Set::new(|id: Seq<char>| self.lives(snapshot.nodes[id], observed_at)),
            ),
        }
    }
}

/// Tells which nodes live from how long ago their leases were seen renewed.
///
/// The generation and the renewal count that are stored identify a renewal;
/// the time since is measured by this process's own clock only. An observer
/// that has just started grants a leased node one full lease to renew in.
#[derive(Clone, Debug)]
pub struct MembershipLivenessTracker {
    lease_ttl: u64,
    observations: SortedMap<ClusterNodeId, LeaseObservation>,
}

impl View for MembershipLivenessTracker {
    type V = TrackerView;

    closed spec fn view(&self) -> TrackerView {
        TrackerView { lease_ttl: self.lease_ttl, observations: self.observations@ }
    }
}

impl MembershipLivenessTracker {
    pub closed spec fn wf(&self) -> bool {
        self.observations.wf()
    }

    /// A lease lasts `lease_ttl` nanoseconds.
    pub fn new(lease_ttl: u64) -> (r: Self)
        ensures
            r.wf(),
            r@ == (TrackerView { lease_ttl, observations: Map::empty() }),
    {
        MembershipLivenessTracker { lease_ttl, observations: SortedMap::new() }
    }

    /// What is known of a node's lease.
    pub fn observation(&self, node_id: &ClusterNodeId) -> (r: Option<LeaseObservation>)
        requires
            self.wf(),
        ensures
            r == self@.known(node_id@),
    {
        match self.observations.get(node_id) {
            Some(observation) => Some(*observation),
            None => None,
        }
    }

    /// The directory with the living nodes only. `observed_at` is the reading
    /// of this process's monotonic clock, in nanoseconds.
    pub fn live_snapshot(
        &mut self,
        snapshot: &MembershipSnapshot,
        observed_at: u64,
    ) -> (r: MembershipSnapshot)
        requires
            old(self).wf(),
            snapshot.wf(),
        ensures
            final(self).wf(),
            r.wf(),
            r@ == old(self)@.living(snapshot@, observed_at),
            exists|diagnostic_now_ms: u64|
                final(self)@ == #[trigger] old(self)@.after(
                    snapshot@,
                    observed_at,
                    diagnostic_now_ms,
                ),
    {
        let now: u64 = current_unix_timestamp_millis();
        self.live_snapshot_at(snapshot, observed_at, now)
    }

    /// Takes in one node of the directory, and tells whether it lives.
    fn observe(&mut self, node: &NodeMembership, observed_at: u64, diagnostic_now_ms: u64) -> (r:
        bool)
        requires
            old(self).wf(),
        ensures
            final(self).wf(),
            r == old(self)@.lives(node@, observed_at),
            final(self)@.lease_ttl == old(self)@.lease_ttl,
            final(self)@.observations == (match node@.lease_revision() {
                None => old(self)@.observations,
                Some(revision) => old(self)@.observations.insert(
                    node@.node_id,
                    observed(
                        old(self)@.known(node@.node_id),
                        revision,
                        node@.heartbeat_expires_at_ms,
                        observed_at,
                        diagnostic_now_ms,
                        old(self)@.lease_ttl,
                    ),
                ),
            }),
    {
        let revision = match node.lease_revision() {
            Some(revision) => revision,
            None => {
                return !node.draining;
            },
        };
        let mut seen = match self.observation(&node.node_id) {
            Some(observation) => observation,
            None => LeaseObservation {
                revision,
                last_renewal_observed_at: observed_at,
                expired: false,
                last_clock_disagreement: None,
            },
        };
        if revision.is_before(&seen.revision) {
            self.observations.insert(node.node_id.duplicate(), seen);
            return false;
        }
        if seen.revision.is_before(&revision) {
            seen.last_renewal_observed_at = observed_at;
        }
        seen.revision = revision;
        let lease_age: u64 = if observed_at >= seen.last_renewal_observed_at {
            observed_at - seen.last_renewal_observed_at
        } else {
            0
        };
        let renewal_is_live = lease_age < self.lease_ttl;
        seen.expired = !renewal_is_live;
        match node.heartbeat_expires_at_ms {
            Some(expires_at_ms) => {
                let timestamp_is_live = expires_at_ms > diagnostic_now_ms;
                seen.last_clock_disagreement = if timestamp_is_live != renewal_is_live {
                    Some(ClockDisagreement { timestamp_is_live, renewal_is_live })
                } else {
                    None
                };
            },
            None => {},
        }
        self.observations.insert(node.node_id.duplicate(), seen);
        renewal_is_live && !node.draining
    }

    /// The directory with the living nodes only. `diagnostic_now_ms` is the
    /// wall clock, which decides nothing.
    pub fn live_snapshot_at(
        &mut self,
        snapshot: &MembershipSnapshot,
        observed_at: u64,
        diagnostic_now_ms: u64,
    ) -> (r: MembershipSnapshot)
        requires
            old(self).wf(),
            snapshot.wf(),
        ensures
            final(self).wf(),
            final(self)@ == old(self)@.after(snapshot@, observed_at, diagnostic_now_ms),
            r.wf(),
            r@ == old(self)@.living(snapshot@, observed_at),
    {
        let ghost start = self@;
        let ghost names = snapshot.names();
        let ghost lives = Set::new(
            |id: Seq<char>| start.lives(snapshot@.nodes[id], observed_at),
        );
        let ghost after = start.after(snapshot@, observed_at, diagnostic_now_ms);
        let mut chosen: Vec<bool> = Vec::new();
        let mut i: usize = 0;
        while i < snapshot.nodes.len()
            invariant
                self.wf(),
                snapshot.wf(),
                names == snapshot.names(),
                after == start.after(snapshot@, observed_at, diagnostic_now_ms),
                lives == Set::new(
                    |id: Seq<char>| start.lives(snapshot@.nodes[id], observed_at),
                ),
                i <= names.len(),
                chosen@.len() == i,
                forall|k: int|
                    0 <= k < i ==> chosen@[k] == lives.contains(#[trigger] names[k]),
                self@.lease_ttl == start.lease_ttl,
                forall|k: int|
                    0 <= k < i ==> #[trigger] self@.known(names[k]) == after.known(names[k]),
                forall|k: int|
                    i <= k < names.len() ==> #[trigger] self@.known(names[k]) == start.known(
                        names[k],
                    ),
                forall|id: Seq<char>|
                    !names.contains(id) ==> #[trigger] self@.known(id) == start.known(id),
            decreases names.len() - i,
        {
            let ghost before = self@;
            let ghost id = names[i as int];
            let node = snapshot.nodes.value_at(i);
            proof {
                snapshot.nodes.entries_agree();
                assert(snapshot@.nodes.dom().contains(id));
                assert(snapshot@.nodes[id] == node@);
                assert(before.known(names[i as int]) == start.known(id));
            }
            let alive = self.observe(node, observed_at, diagnostic_now_ms);
            chosen.push(alive);
            proof {
                assert(before.lives(node@, observed_at) == start.lives(node@, observed_at));
                assert forall|k: int| 0 <= k < i + 1 implies #[trigger] self@.known(names[k])
                    == after.known(names[k]) by {
                    if k < i {
                        text::text_order_is_total(names[k], names[k], names[k]);
                        assert(text::text_before(names[k], names[i as int]));
                        assert(before.known(names[k]) == after.known(names[k]));
                    } else {
                        assert(start.known(id) == before.known(id));
                    }
                }
                assert forall|k: int| i + 1 <= k < names.len() implies #[trigger] self@.known(
                    names[k],
                ) == start.known(names[k]) by {
                    text::text_order_is_total(names[k], names[k], names[k]);
                    assert(text::text_before(names[i as int], names[k]));
                    assert(before.known(names[k]) == start.known(names[k]));
                }
                assert forall|x: Seq<char>| !names.contains(x) implies #[trigger] self@.known(x)
                    == start.known(x) by {
                    assert(names.contains(names[i as int]));
                    assert(before.known(x) == start.known(x));
                }
            }
            i = i + 1;
        }
        proof {
            snapshot.entries_agree();
            assert forall|id: Seq<char>| #[trigger] self@.known(id) == after.known(id) by {
                if names.contains(id) {
                    let k = names.index_of(id);
                    assert(names[k] == id);
                    assert(self@.known(names[k]) == after.known(names[k]));
                } else {
                    assert(!snapshot@.nodes.dom().contains(id));
                    assert(self@.known(id) == start.known(id));
                }
            }
            assert forall|id: Seq<char>| #[trigger] self@.observations.dom().contains(id)
                == after.observations.dom().contains(id) by {
                assert(self@.known(id) == after.known(id));
            }
            assert(self@.observations.dom() =~= after.observations.dom());
            assert forall|id: Seq<char>| self@.observations.dom().contains(
                id,
            ) implies #[trigger] self@.observations[id] == after.observations[id] by {
                assert(self@.known(id) == after.known(id));
            }
            assert(self@.observations =~= after.observations);
        }
        snapshot.keep(&chosen, Ghost(lives))
    }
}

/// The entries differ at most in the deadline that the writer's clock gave.
pub open spec fn same_but_for_the_deadline(a: NodeView, b: NodeView) -> bool {
    &&& a == (NodeView { heartbeat_expires_at_ms: a.heartbeat_expires_at_ms, ..b })
    &&& a.lease_revision() == b.lease_revision()
}

/// The directories differ at most in the deadlines.
pub open spec fn same_but_for_deadlines(a: SnapshotView, b: SnapshotView) -> bool {
    &&& a.version == b.version
    &&& a.nodes.dom() == b.nodes.dom()
    &&& forall|id: Seq<char>|
        a.nodes.dom().contains(id) ==> same_but_for_the_deadline(
            #[trigger] a.nodes[id],
            b.nodes[id],
        )
}

/// What an observer saw, when, and what the wall clock said then.
pub struct Sighting {
    pub snapshot: SnapshotView,
    pub observed_at: u64,
    pub diagnostic_now_ms: u64,
}

impl TrackerView {
    /// What is known once the directory has been seen a number of times.
    pub open spec fn after_all(self, sightings: Seq<Sighting>) -> TrackerView
        decreases sightings.len(),
    {
        if sightings.len() == 0 {
            self
        } else {
            let last = sightings.last();
            self.after_all(sightings.drop_last()).after(
                last.snapshot,
                last.observed_at,
                last.diagnostic_now_ms,
            )
        }
    }

    /// The observers know the same, but for what they noted of deadlines.
    spec fn agrees_with(self, other: TrackerView) -> bool {
        &&& self.lease_ttl == other.lease_ttl
        &&& self.observations.dom() == other.observations.dom()
        &&& forall|id: Seq<char>|
            self.observations.dom().contains(id) ==> (
            #[trigger] self.observations[id]).revision == other.observations[id].revision
                && self.observations[id].last_renewal_observed_at
                == other.observations[id].last_renewal_observed_at
    }
}

proof fn lemma_sighting_agrees(
    a: TrackerView,
    b: TrackerView,
    x: SnapshotView,
    y: SnapshotView,
    observed_at: u64,
    first_clock: u64,
    second_clock: u64,
)
    requires
        a.agrees_with(b),
        same_but_for_deadlines(x, y),
    ensures
        a.after(x, observed_at, first_clock).agrees_with(b.after(y, observed_at, second_clock)),
{
    let c = a.after(x, observed_at, first_clock);
    let d = b.after(y, observed_at, second_clock);
    assert forall|id: Seq<char>| c.observations.dom().contains(id)
        <==> d.observations.dom().contains(id) by {
        if x.nodes.dom().contains(id) {
            assert(same_but_for_the_deadline(x.nodes[id], y.nodes[id]));
        }
    }
    assert(c.observations.dom() =~= d.observations.dom());
    assert forall|id: Seq<char>| c.observations.dom().contains(id) implies (
    #[trigger] c.observations[id]).revision == d.observations[id].revision
        && c.observations[id].last_renewal_observed_at
        == d.observations[id].last_renewal_observed_at by {
        if a.observations.dom().contains(id) {
            assert(a.observations[id].revision == b.observations[id].revision);
        }
        if x.nodes.dom().contains(id) {
            assert(same_but_for_the_deadline(x.nodes[id], y.nodes[id]));
        }
    }
}

proof fn lemma_sightings_agree(tracker: TrackerView, a: Seq<Sighting>, b: Seq<Sighting>)
    requires
        a.len() == b.len(),
        forall|i: int|
            0 <= i < a.len() ==> (#[trigger] a[i]).observed_at == b[i].observed_at
                && same_but_for_deadlines(a[i].snapshot, b[i].snapshot),
    ensures
        tracker.after_all(a).agrees_with(tracker.after_all(b)),
    decreases a.len(),
{
    if a.len() > 0 {
        assert forall|i: int| 0 <= i < a.len() - 1 implies (
        #[trigger] a.drop_last()[i]).observed_at == b.drop_last()[i].observed_at
            && same_but_for_deadlines(a.drop_last()[i].snapshot, b.drop_last()[i].snapshot) by {
            assert(a[i].observed_at == b[i].observed_at);
        }
        lemma_sightings_agree(tracker, a.drop_last(), b.drop_last());
        let n = a.len() - 1;
        assert(a[n].observed_at == b[n].observed_at);
        lemma_sighting_agrees(
            tracker.after_all(a.drop_last()),
            tracker.after_all(b.drop_last()),
            a[n].snapshot,
            b[n].snapshot,
            a[n].observed_at,
            a[n].diagnostic_now_ms,
            b[n].diagnostic_now_ms,
        );
    }
}

/// Which nodes live does not depend on the wall clock, nor on the deadlines
/// that the writers' clocks gave: whatever an observer has seen before, it
/// takes the same nodes to live, if the directories differ in the deadlines
/// alone and its wall clock ran otherwise.
pub proof fn liveness_ignores_deadlines(
    tracker: TrackerView,
    a: Seq<Sighting>,
    b: Seq<Sighting>,
    x: SnapshotView,
    y: SnapshotView,
    observed_at: u64,
)
    requires
        a.len() == b.len(),
        forall|i: int|
            0 <= i < a.len() ==> (#[trigger] a[i]).observed_at == b[i].observed_at
                && same_but_for_deadlines(a[i].snapshot, b[i].snapshot),
        same_but_for_deadlines(x, y),
    ensures
        same_but_for_deadlines(
            tracker.after_all(a).living(x, observed_at),
            tracker.after_all(b).living(y, observed_at),
        ),
{
    lemma_sightings_agree(tracker, a, b);
    let first = tracker.after_all(a);
    let second = tracker.after_all(b);
    let one = first.living(x, observed_at);
    let two = second.living(y, observed_at);
    assert forall|id: Seq<char>| one.nodes.dom().contains(id)
        <==> two.nodes.dom().contains(id) by {
        if x.nodes.dom().contains(id) {
            assert(same_but_for_the_deadline(x.nodes[id], y.nodes[id]));
            let named = x.nodes[id].node_id;
            if first.observations.dom().contains(named) {
                assert(first.observations[named].revision == second.observations[named].revision);
            }
        }
    }
    assert(one.nodes.dom() =~= two.nodes.dom());
    assert forall|id: Seq<char>| one.nodes.dom().contains(id) implies same_but_for_the_deadline(
        #[trigger] one.nodes[id],
        two.nodes[id],
    ) by {
        assert(same_but_for_the_deadline(x.nodes[id], y.nodes[id]));
    }
}

/// The newest revision of the node's lease that was seen, and when it was seen
/// first.
pub open spec fn newest_seen(sightings: Seq<Sighting>, id: Seq<char>) -> Option<
    (LeaseRevision, u64),
>
    decreases sightings.len(),
{
    if sightings.len() == 0 {
        None
    } else {
        let earlier = newest_seen(sightings.drop_last(), id);
        let last = sightings.last();
        if last.snapshot.nodes.dom().contains(id) {
            match (last.snapshot.nodes[id].lease_revision(), earlier) {
                (None, _) => earlier,
                (Some(revision), None) => Some((revision, last.observed_at)),
                (Some(revision), Some((newest, at))) => if newest.precedes(revision) {
                    Some((revision, last.observed_at))
                } else {
                    Some((newest, at))
                },
            }
        } else {
            earlier
        }
    }
}

/// An observer that has seen nothing yet.
pub open spec fn fresh_tracker(lease_ttl: u64) -> TrackerView {
    TrackerView { lease_ttl, observations: Map::empty() }
}

proof fn lemma_newest_is_known(lease_ttl: u64, sightings: Seq<Sighting>, id: Seq<char>)
    ensures
        fresh_tracker(lease_ttl).after_all(sightings).lease_ttl == lease_ttl,
        match fresh_tracker(lease_ttl).after_all(sightings).known(id) {
            None => newest_seen(sightings, id) is None,
            Some(seen) => newest_seen(sightings, id) == Some(
                (seen.revision, seen.last_renewal_observed_at),
            ),
        },
    decreases sightings.len(),
{
    if sightings.len() > 0 {
        lemma_newest_is_known(lease_ttl, sightings.drop_last(), id);
        let before = fresh_tracker(lease_ttl).after_all(sightings.drop_last());
        let last = sightings.last();
        let after = before.after(last.snapshot, last.observed_at, last.diagnostic_now_ms);
        assert(after.observations.dom().contains(id) || !after.observations.dom().contains(id));
    }
}

/// Over any history of an observer, a node with a lease lives exactly while it
/// is not on its way out, its entry has the newest revision that was seen of
/// it, and that revision was first seen less than one lease ago. So an entry of
/// an older revision never brings it back.
pub proof fn nodes_live_by_their_newest_renewal(
    lease_ttl: u64,
    sightings: Seq<Sighting>,
    now: Sighting,
    id: Seq<char>,
)
    requires
        now.snapshot.nodes.dom().contains(id),
        now.snapshot.nodes[id].node_id == id,
        now.snapshot.nodes[id].lease_revision() is Some,
    ensures
        ({
            let node = now.snapshot.nodes[id];
            let tracker = fresh_tracker(lease_ttl).after_all(sightings);
            &&& newest_seen(sightings.push(now), id) matches Some((newest, first_seen))
            &&& !newest.precedes(node.lease_revision()->Some_0)
            &&& newest_seen(sightings, id) matches Some((before, at)) ==> !newest.precedes(before)
            &&& tracker.living(now.snapshot, now.observed_at).nodes.dom().contains(id)
                <==> !node.draining && node.lease_revision() == Some(newest) && elapsed_since(
                now.observed_at,
                first_seen,
            ) < lease_ttl
        }),
{
    lemma_newest_is_known(lease_ttl, sightings, id);
    assert(sightings.push(now).drop_last() =~= sightings);
    assert(sightings.push(now).last() == now);
}

/// A node that is seen for the first time, or renewed, lives for one lease
/// from then on, if it is not on its way out.
pub proof fn renewal_grants_one_lease(
    tracker: TrackerView,
    snapshot: SnapshotView,
    id: Seq<char>,
    seen_at: u64,
    diagnostic_now_ms: u64,
    later: u64,
)
    requires
        snapshot.nodes.dom().contains(id),
        snapshot.nodes[id].node_id == id,
        snapshot.nodes[id].lease_revision() is Some,
        !snapshot.nodes[id].draining,
        tracker.known(id) matches Some(seen) ==> seen.revision.precedes(
            snapshot.nodes[id].lease_revision()->Some_0,
        ),
        seen_at <= later,
    ensures
        tracker.after(snapshot, seen_at, diagnostic_now_ms).lives(snapshot.nodes[id], later)
            <==> later - seen_at < tracker.lease_ttl,
{
    assert(tracker.after(snapshot, seen_at, diagnostic_now_ms).observations.dom().contains(id));
}

/// A static entry lives as long as it is not on its way out.
pub proof fn static_entries_do_not_expire(tracker: TrackerView, node: NodeView, observed_at: u64)
    requires
        node.lease_revision() is None,
    ensures
        tracker.lives(node, observed_at) == !node.draining,
{
}

/// A registration never takes the directory back: the version does not fall,
/// nor does the generation of a node, and within one generation the count of
/// renewals does not fall.
pub proof fn registration_never_goes_back(snapshot: SnapshotView, node: NodeView, id: Seq<char>)
    requires
        snapshot.nodes.dom().contains(id),
    ensures
        snapshot.version <= registered(snapshot, node).version,
        registered(snapshot, node).nodes.dom().contains(id),
        snapshot.nodes[id].generation <= registered(snapshot, node).nodes[id].generation,
        snapshot.nodes[id].lease_revision() matches Some(revision) ==> {
            &&& registered(snapshot, node).nodes[id].lease_revision() is Some
            &&& revision.renewal_sequence <= registered(
                snapshot,
                node,
            ).nodes[id].lease_revision()->Some_0.renewal_sequence
        },
{
}

/// A registration changes no entry but the node's own.
pub proof fn registration_is_local(snapshot: SnapshotView, node: NodeView, id: Seq<char>)
    requires
        id != node.node_id,
    ensures
        registered(snapshot, node).nodes.dom().contains(id) == snapshot.nodes.dom().contains(id),
        registered(snapshot, node).nodes[id] == snapshot.nodes[id],
{
}

/// The name of a node that is known by its place in a list of addresses only.
pub open spec fn peer_name(partition: u32, index: int) -> Seq<char> {
    "partition-"@ + text::decimal(partition as nat) + "-peer-"@ + text::decimal(index as nat)
}

proof fn lemma_peer_names_differ(p: u32, i: int, q: u32, j: int)
    requires
        0 <= i,
        0 <= j,
        peer_name(p, i) == peer_name(q, j),
    ensures
        p == q,
        i == j,
{
    reveal_strlit("partition-");
    reveal_strlit("-peer-");
    let head = "partition-"@;
    let middle = "-peer-"@;
    let a = text::decimal(p as nat);
    let b = text::decimal(q as nat);
    text::decimal_digits_read_back(p as nat);
    text::decimal_digits_read_back(q as nat);
    let x = peer_name(p, i);
    let y = peer_name(q, j);
    assert(x.len() == head.len() + a.len() + middle.len() + text::decimal(i as nat).len());
    assert(y.len() == head.len() + b.len() + middle.len() + text::decimal(j as nat).len());
    if a.len() < b.len() {
        let k = head.len() + a.len();
        assert(x[k as int] == middle[0]);
        assert(y[k as int] == b[a.len() as int]);
        assert(text::is_digit(b[a.len() as int]));
        assert(false);
    }
    if b.len() < a.len() {
        let k = head.len() + b.len();
        assert(y[k as int] == middle[0]);
        assert(x[k as int] == a[b.len() as int]);
        assert(text::is_digit(a[b.len() as int]));
        assert(false);
    }
    assert(a =~= b) by {
        assert forall|n: int| 0 <= n < a.len() implies a[n] == b[n] by {
            assert(x[head.len() + n] == a[n]);
            assert(y[head.len() + n] == b[n]);
        }
    }
    text::decimal_is_injective(p as nat, q as nat);
    let k = (head.len() + a.len() + middle.len()) as int;
    assert(x.skip(k) =~= text::decimal(i as nat));
    assert(y.skip(k) =~= text::decimal(j as nat));
    text::decimal_is_injective(i as nat, j as nat);
}

/// The address can be served: it is not blank.
pub open spec fn is_address(address: Seq<char>) -> bool {
    text::trim(address).len() > 0
}

/// The list has an address for the partition at the index, and it can be
/// served.
pub open spec fn has_peer(addresses: Map<u32, Seq<Seq<char>>>, partition: u32, index: int) -> bool {
    &&& addresses.dom().contains(partition)
    &&& 0 <= index < addresses[partition].len()
    &&& is_address(addresses[partition][index])
}

/// The entry of the address at the index stands under the name of its place.
pub open spec fn has_entry(
    nodes: Map<Seq<char>, NodeView>,
    addresses: Map<u32, Seq<Seq<char>>>,
    partition: u32,
    index: int,
) -> bool {
    &&& nodes.dom().contains(peer_name(partition, index))
    &&& nodes[peer_name(partition, index)] == static_node(
        peer_name(partition, index),
        PartitionId(partition),
        text::trim(addresses[partition][index]),
    )
}

/// Every entry is that of a listed address.
pub open spec fn only_peers(
    nodes: Map<Seq<char>, NodeView>,
    addresses: Map<u32, Seq<Seq<char>>>,
) -> bool {
    forall|id: Seq<char>| #[trigger]
        nodes.dom().contains(id) ==> exists|partition: u32, index: int| #[trigger]
            has_peer(addresses, partition, index) && id == peer_name(partition, index)
}

/// The entries are those of the listed addresses, each under the name of its
/// place in the list.
pub open spec fn bootstraps(
    nodes: Map<Seq<char>, NodeView>,
    addresses: Map<u32, Seq<Seq<char>>>,
) -> bool {
    &&& only_peers(nodes, addresses)
    &&& forall|partition: u32, index: int| #[trigger]
        has_peer(addresses, partition, index) ==> has_entry(nodes, addresses, partition, index)
}

/// The addresses of the partition's nodes that are not on their way out, in
/// the order of the first `n` names.
pub open spec fn serving(
    nodes: Map<Seq<char>, NodeView>,
    names: Seq<Seq<char>>,
    partition: u32,
    n: nat,
) -> Seq<Seq<char>>
    decreases n,
{
    if n == 0 {
        Seq::empty()
    } else {
        let before = serving(nodes, names, partition, (n - 1) as nat);
        let node = nodes[names[n - 1]];
        if !node.draining && node.partition.0 == partition {
            before.push(node.grpc_addr)
        } else {
            before
        }
    }
}

/// The addresses at which each partition is served, in the order of the names.
pub open spec fn addresses_of(nodes: Map<Seq<char>, NodeView>, names: Seq<Seq<char>>) -> Map<
    u32,
    Seq<Seq<char>>,
> {
    Map::new(
        |partition: u32| serving(nodes, names, partition, names.len()).len() > 0,
        |partition: u32| serving(nodes, names, partition, names.len()),
    )
}

/// Each entry stands under its own name.
spec fn named(nodes: Map<Seq<char>, NodeMembership>) -> bool {
    forall|id: Seq<char>| nodes.dom().contains(id) ==> (#[trigger] nodes[id])@.node_id == id
}

/// The addresses of the first `done` partitions have their entries, and the
/// first `upto` addresses of the next.
spec fn entered(
    nodes: Map<Seq<char>, NodeMembership>,
    addresses: Map<u32, Seq<Seq<char>>>,
    partitions: Seq<u32>,
    done: int,
    upto: int,
) -> bool {
    forall|k: int, index: int|
        0 <= k <= done && k < partitions.len() && #[trigger] has_peer(
            addresses,
            partitions[k],
            index,
        ) && (k < done || index < upto) ==> has_entry(
            nodes_view(nodes),
            addresses,
            partitions[k],
            index,
        )
}

impl MembershipSnapshot {
    /// The directory of nodes that are known by their addresses only. A blank
    /// address is left out.
    pub fn from_node_addresses(
        version: MembershipVersion,
        addresses: &NodeAddresses,
    ) -> (r: Self)
        requires
            addresses.wf(),
        ensures
            r.wf(),
            r@.version == version.0,
            bootstraps(r@.nodes, addresses@),
    {
        let mut nodes: SortedMap<ClusterNodeId, NodeMembership> = SortedMap::new();
        let ghost partitions = addresses.partitions();
        let mut i: usize = 0;
        proof {
            addresses.entries_agree();
        }
        while i < addresses.len()
            invariant
                addresses.wf(),
                partitions == addresses.partitions(),
                forall|partition: u32|
                    addresses@.dom().contains(partition) <==> partitions.contains(partition),
                i <= partitions.len(),
                nodes.wf(),
                named(nodes@),
                entered(nodes@, addresses@, partitions, i as int, 0),
                only_peers(nodes_view(nodes@), addresses@),
            decreases partitions.len() - i,
        {
            let partition = addresses.partition_at(i);
            proof {
                assert(partitions.contains(partitions[i as int]));
            }
            match addresses.addresses_for(partition) {
                Some(list) => {
                    Self::add_peers(
                        &mut nodes,
                        partition,
                        list,
                        Ghost(addresses@),
                        Ghost(partitions),
                        Ghost(i as int),
                    );
                },
                None => {},
            }
            i = i + 1;
        }
        let r = MembershipSnapshot { version, nodes };
        proof {
            assert forall|partition: u32, index: int| #[trigger]
                has_peer(addresses@, partition, index) implies has_entry(
                r@.nodes,
                addresses@,
                partition,
                index,
            ) by {
                let k = partitions.index_of(partition);
                assert(partitions.contains(partition));
                assert(has_peer(addresses@, partitions[k], index));
            }
        }
        r
    }

    /// Adds the nodes of one partition's addresses.
    fn add_peers(
        nodes: &mut SortedMap<ClusterNodeId, NodeMembership>,
        partition: PartitionId,
        list: &Vec<String>,
        Ghost(addresses): Ghost<Map<u32, Seq<Seq<char>>>>,
        Ghost(partitions): Ghost<Seq<u32>>,
        Ghost(done): Ghost<int>,
    )
        requires
            old(nodes).wf(),
            0 <= done < partitions.len(),
            partitions[done] == partition.0,
            addresses.dom().contains(partition.0),
            addresses[partition.0] == text::texts(list@),
            named(old(nodes)@),
            entered(old(nodes)@, addresses, partitions, done, 0),
            only_peers(nodes_view(old(nodes)@), addresses),
        ensures
            final(nodes).wf(),
            named(final(nodes)@),
            entered(final(nodes)@, addresses, partitions, done + 1, 0),
            only_peers(nodes_view(final(nodes)@), addresses),
    {
        let mut j: usize = 0;
        while j < list.len()
            invariant
                nodes.wf(),
                0 <= done < partitions.len(),
                partitions[done] == partition.0,
                addresses.dom().contains(partition.0),
                addresses[partition.0] == text::texts(list@),
                j <= list@.len(),
                named(nodes@),
                entered(nodes@, addresses, partitions, done, j as int),
                only_peers(nodes_view(nodes@), addresses),
            decreases list@.len() - j,
        {
            let mut name = "partition-".to_owned();
            text::push_decimal(&mut name, partition.0 as u64);
            name.append("-peer-");
            text::push_decimal(&mut name, j as u64);
            let ghost id = peer_name(partition.0, j as int);
            assert(name@ =~= id);
            let ghost address = list@[j as int]@;
            assert(addresses[partition.0][j as int] == address);
            let ghost before = nodes@;
            proof {
                lemma_peer_names_are_names(partition.0, j as int);
            }
            match ClusterNodeId::new(name.as_str()) {
                Ok(node_id) => match NodeMembership::new(node_id, partition, list[j].as_str()) {
                    Ok(node) => {
                        let ghost stated = node;
                        assert(stated@ == static_node(id, partition, text::trim(address)));
                        nodes.insert(node.node_id.duplicate(), node);
                        proof {
                            assert(nodes@ == before.insert(id, stated));
                            assert(has_peer(addresses, partition.0, j as int));
                            assert forall|x: Seq<char>| #[trigger]
                                nodes_view(nodes@).dom().contains(x) implies exists|
                                partition: u32,
                                index: int,
                            | #[trigger]
                                has_peer(addresses, partition, index) && x == peer_name(
                                    partition,
                                    index,
                                ) by {
                                if x != id {
                                    assert(nodes_view(before).dom().contains(x));
                                }
                            }
                        }
                    },
                    Err(_) => {
                        assert(!has_peer(addresses, partition.0, j as int));
                    },
                },
                Err(_) => {},
            }
            proof {
                assert forall|k: int, index: int|
                    0 <= k <= done && k < partitions.len() && #[trigger] has_peer(
                        addresses,
                        partitions[k],
                        index,
                    ) && (k < done || index < j + 1) implies has_entry(
                    nodes_view(nodes@),
                    addresses,
                    partitions[k],
                    index,
                ) by {
                    let other = peer_name(partitions[k], index);
                    if other == id {
                        lemma_peer_names_differ(partitions[k], index, partition.0, j as int);
                    } else {
                        if k == done && index == j {
                            assert(other == id);
                        }
                        assert(has_entry(nodes_view(before), addresses, partitions[k], index));
                    }
                }
            }
            j = j + 1;
        }
    }

    /// The addresses at which each partition is served, in the order of the
    /// nodes' names.
    pub fn to_node_addresses(&self) -> (r: NodeAddresses)
        requires
            self.wf(),
        ensures
            r.wf(),
            r@ == addresses_of(self@.nodes, self.names()),
    {
        let mut addresses = NodeAddresses::new();
        let ghost names = self.names();
        let ghost nodes = self@.nodes;
        let mut i: usize = 0;
        while i < self.nodes.len()
            invariant
                self.wf(),
                names == self.names(),
                nodes == self@.nodes,
                i <= names.len(),
                addresses.wf(),
                forall|partition: u32| #[trigger]
                    addresses@.dom().contains(partition) <==> serving(
                        nodes,
                        names,
                        partition,
                        i as nat,
                    ).len() > 0,
                forall|partition: u32|
                    addresses@.dom().contains(partition) ==> #[trigger] addresses@[partition]
                        == serving(nodes, names, partition, i as nat),
            decreases names.len() - i,
        {
            let node = self.nodes.value_at(i);
            let ghost before = addresses;
            proof {
                self.nodes.entries_agree();
                assert(nodes[names[i as int]] == node@);
            }
            if !node.draining {
                addresses.add_address(node.partition, node.grpc_addr.clone());
            }
            proof {
                assert forall|partition: u32| #[trigger]
                    addresses@.dom().contains(partition) <==> serving(
                        nodes,
                        names,
                        partition,
                        (i + 1) as nat,
                    ).len() > 0 by {
                    assert(before@.dom().contains(partition) <==> serving(
                        nodes,
                        names,
                        partition,
                        i as nat,
                    ).len() > 0);
                }
                assert forall|partition: u32|
                    addresses@.dom().contains(partition) implies #[trigger] addresses@[partition]
                    == serving(nodes, names, partition, (i + 1) as nat) by {
                    assert(before@.dom().contains(partition) <==> serving(
                        nodes,
                        names,
                        partition,
                        i as nat,
                    ).len() > 0);
                    if before@.dom().contains(partition) {
                        assert(before@[partition] == serving(nodes, names, partition, i as nat));
                    } else {
                        assert(serving(nodes, names, partition, i as nat) =~= Seq::empty());
                    }
                }
            }
            i = i + 1;
        }
        assert(addresses@ =~= addresses_of(nodes, names));
        addresses
    }
}

proof fn lemma_trim_keeps(s: Seq<char>)
    requires
        s.len() > 0,
        !text::is_white_space(s[0]),
        !text::is_white_space(s.last()),
    ensures
        text::trim(s) == s,
{
    assert(text::trim_start(s) == s);
    assert(text::trim_end(s) == s);
}

proof fn lemma_peer_names_are_names(partition: u32, index: int)
    requires
        0 <= index,
    ensures
        is_node_id(peer_name(partition, index)),
{
    reveal_strlit("partition-");
    let name = peer_name(partition, index);
    text::decimal_digits_read_back(index as nat);
    let digits = text::decimal(index as nat);
    assert(text::is_digit(digits[digits.len() - 1]));
    assert(name[0] == "partition-"@[0]);
    assert(name.last() == digits.last());
    lemma_trim_keeps(name);
}

/// The entry at the position serves the partition at the address.
spec fn serves_at(
    nodes: Map<Seq<char>, NodeView>,
    names: Seq<Seq<char>>,
    partition: u32,
    address: Seq<char>,
    k: int,
) -> bool {
    let node = nodes[names[k]];
    !node.draining && node.partition.0 == partition && node.grpc_addr == address
}

proof fn lemma_serving(
    nodes: Map<Seq<char>, NodeView>,
    names: Seq<Seq<char>>,
    partition: u32,
    address: Seq<char>,
    n: nat,
)
    requires
        n <= names.len(),
    ensures
        serving(nodes, names, partition, n).contains(address) <==> exists|k: int|
            0 <= k < n && #[trigger] serves_at(nodes, names, partition, address, k),
    decreases n,
{
    if n > 0 {
        lemma_serving(nodes, names, partition, address, (n - 1) as nat);
        let before = serving(nodes, names, partition, (n - 1) as nat);
        let now = serving(nodes, names, partition, n);
        if now.contains(address) {
            let i = now.index_of(address);
            if i < before.len() {
                assert(before[i] == address);
                assert(before.contains(address));
            } else {
                assert(serves_at(nodes, names, partition, address, n - 1));
            }
        }
        if exists|k: int| 0 <= k < n && #[trigger] serves_at(nodes, names, partition, address, k) {
            let k = choose|k: int|
                0 <= k < n && #[trigger] serves_at(nodes, names, partition, address, k);
            if k < n - 1 {
                assert(before.contains(address));
                let i = before.index_of(address);
                assert(now[i] == address);
            } else {
                assert(now[now.len() - 1] == address);
            }
        }
    }
}

/// A directory that was made from addresses serves each partition at exactly
/// those addresses, trimmed and without the blank ones.
pub proof fn bootstrapped_directory_serves_its_addresses(
    snapshot: SnapshotView,
    names: Seq<Seq<char>>,
    addresses: Map<u32, Seq<Seq<char>>>,
    partition: u32,
    address: Seq<char>,
)
    requires
        bootstraps(snapshot.nodes, addresses),
        forall|id: Seq<char>| snapshot.nodes.dom().contains(id) <==> names.contains(id),
    ensures
        serving(snapshot.nodes, names, partition, names.len()).contains(address) <==> exists|
            index: int,
        | #[trigger]
            has_peer(addresses, partition, index) && text::trim(addresses[partition][index])
                == address,
{
    let nodes = snapshot.nodes;
    lemma_serving(nodes, names, partition, address, names.len());
    if exists|k: int|
        0 <= k < names.len() && #[trigger] serves_at(nodes, names, partition, address, k) {
        let k = choose|k: int|
            0 <= k < names.len() && #[trigger] serves_at(nodes, names, partition, address, k);
        assert(names.contains(names[k]));
        let (q, index) = choose|q: u32, index: int| #[trigger]
            has_peer(addresses, q, index) && names[k] == peer_name(q, index);
        assert(has_entry(nodes, addresses, q, index));
        assert(has_peer(addresses, partition, index));
    }
    if exists|index: int| #[trigger]
        has_peer(addresses, partition, index) && text::trim(addresses[partition][index])
            == address {
        let index = choose|index: int| #[trigger]
            has_peer(addresses, partition, index) && text::trim(addresses[partition][index])
                == address;
        assert(has_entry(nodes, addresses, partition, index));
        let name = peer_name(partition, index);
        assert(nodes.dom().contains(name));
        assert(names.contains(name));
        let k = names.index_of(name);
        assert(names[k] == name);
        assert(serves_at(nodes, names, partition, address, k));
    }
}

proof fn lemma_peer_names_in_order(partition: u32, i: int, j: int)
    requires
        0 <= i < j < 10,
    ensures
        text::text_before(peer_name(partition, i), peer_name(partition, j)),
{
    let head = "partition-"@ + text::decimal(partition as nat) + "-peer-"@;
    let a = text::text_key(peer_name(partition, i));
    let b = text::text_key(peer_name(partition, j));
    assert(peer_name(partition, i) =~= head.push(text::digit_char(i)));
    assert(peer_name(partition, j) =~= head.push(text::digit_char(j)));
    assert(text::lex_splits_at(a, b, head.len() as int));
}

/// The addresses can be told apart by the order of their places' names: each
/// partition has at most ten, and at least one, and each is trimmed.
pub open spec fn is_small_listing(addresses: Map<u32, Seq<Seq<char>>>) -> bool {
    &&& forall|partition: u32|
        addresses.dom().contains(partition) ==> 0 < (#[trigger] addresses[partition]).len() <= 10
    &&& forall|partition: u32, index: int|
        addresses.dom().contains(partition) && 0 <= index < addresses[partition].len()
            ==> is_address(#[trigger] addresses[partition][index]) && text::trim(
            addresses[partition][index],
        ) == addresses[partition][index]
}

/// The listing holds the names in the directory, in their order.
pub open spec fn lists_in_order(nodes: Map<Seq<char>, NodeView>, names: Seq<Seq<char>>) -> bool {
    &&& forall|id: Seq<char>| nodes.dom().contains(id) <==> names.contains(id)
    &&& forall|i: int, j: int|
        0 <= i < j < names.len() ==> text::text_before(#[trigger] names[i], #[trigger] names[j])
}

/// Among the first `n` names stand those of the partition's first places, as
/// many as are served.
spec fn serves_first_places(
    nodes: Map<Seq<char>, NodeView>,
    names: Seq<Seq<char>>,
    addresses: Map<u32, Seq<Seq<char>>>,
    partition: u32,
    n: nat,
) -> bool {
    let served = serving(nodes, names, partition, n);
    &&& served.len() <= addresses[partition].len()
    &&& served == addresses[partition].take(served.len() as int)
    &&& forall|index: int|
        0 <= index < addresses[partition].len() ==> (names.take(n as int).contains(
            #[trigger] peer_name(partition, index),
        ) <==> index < served.len())
}

proof fn lemma_serves_first_places(
    nodes: Map<Seq<char>, NodeView>,
    names: Seq<Seq<char>>,
    addresses: Map<u32, Seq<Seq<char>>>,
    partition: u32,
    n: nat,
)
    requires
        bootstraps(nodes, addresses),
        lists_in_order(nodes, names),
        is_small_listing(addresses),
        addresses.dom().contains(partition),
        n <= names.len(),
    ensures
        serves_first_places(nodes, names, addresses, partition, n),
    decreases n,
{
    let listed = addresses[partition];
    if n == 0 {
        assert(listed.take(0) =~= Seq::empty());
        assert(names.take(0) =~= Seq::empty());
    } else {
        lemma_serves_first_places(nodes, names, addresses, partition, (n - 1) as nat);
        let before = serving(nodes, names, partition, (n - 1) as nat);
        let after = serving(nodes, names, partition, n);
        let name = names[n - 1];
        assert(names.contains(name));
        assert(nodes.dom().contains(name));
        let (q, place) = choose|q: u32, place: int| #[trigger]
            has_peer(addresses, q, place) && name == peer_name(q, place);
        assert(has_entry(nodes, addresses, q, place));
        assert(names.take(n as int) =~= names.take(n - 1).push(name));
        assert forall|index: int| 0 <= index < listed.len() implies has_peer(
            addresses,
            partition,
            index,
        ) by {
            assert(is_address(addresses[partition][index]));
        }
        if q == partition {
            if place < before.len() {
                assert(names.take(n - 1).contains(peer_name(partition, place)));
                let k = names.take(n - 1).index_of(name);
                assert(names[k] == name);
                text::text_order_is_total(name, name, name);
                assert(text::text_before(names[k], names[n - 1]));
            }
            if before.len() < place {
                let skipped = peer_name(partition, before.len() as int);
                assert(has_peer(addresses, partition, before.len() as int));
                assert(has_entry(nodes, addresses, partition, before.len() as int));
                assert(names.contains(skipped));
                let k = names.index_of(skipped);
                lemma_peer_names_in_order(partition, before.len() as int, place);
                text::text_order_is_total(skipped, name, skipped);
                if k < n - 1 {
                    assert(names.take(n - 1)[k] == skipped);
                    assert(names.take(n - 1).contains(skipped));
                } else if k > n - 1 {
                    assert(text::text_before(names[n - 1], names[k]));
                }
            }
            assert(place == before.len());
            assert(text::trim(listed[place]) == listed[place]);
            assert(after =~= listed.take(before.len() as int + 1));
        } else {
            assert(after == before);
        }
        assert forall|index: int| 0 <= index < listed.len() implies (names.take(
            n as int,
        ).contains(#[trigger] peer_name(partition, index)) <==> index < after.len()) by {
            let id = peer_name(partition, index);
            if id == name {
                lemma_peer_names_differ(partition, index, q, place);
            }
            if names.take(n - 1).contains(id) {
                let k = names.take(n - 1).index_of(id);
                assert(names.take(n as int)[k] == id);
            }
            if names.take(n as int).contains(id) {
                let k = names.take(n as int).index_of(id);
                if k < n - 1 {
                    assert(names.take(n - 1)[k] == id);
                }
            }
            if id == name {
                assert(names.take(n as int)[n - 1] == id);
            }
        }
    }
}

/// How many nodes serve the first `k` partitions, among the first `n` names.
spec fn served(
    nodes: Map<Seq<char>, NodeView>,
    names: Seq<Seq<char>>,
    partitions: Seq<u32>,
    n: nat,
    k: nat,
) -> nat
    decreases k,
{
    if k == 0 {
        0
    } else {
        served(nodes, names, partitions, n, (k - 1) as nat) + serving(
            nodes,
            names,
            partitions[k - 1],
            n,
        ).len()
    }
}

/// How many addresses the first `k` partitions have.
pub open spec fn listed_addresses(
    addresses: Map<u32, Seq<Seq<char>>>,
    partitions: Seq<u32>,
    k: nat,
) -> nat
    decreases k,
{
    if k == 0 {
        0
    } else {
        listed_addresses(addresses, partitions, (k - 1) as nat) + addresses[partitions[k
            - 1]].len()
    }
}

proof fn lemma_one_more_served(
    nodes: Map<Seq<char>, NodeView>,
    names: Seq<Seq<char>>,
    partitions: Seq<u32>,
    n: nat,
    k: nat,
    at: int,
)
    requires
        0 < n <= names.len(),
        k <= partitions.len(),
        0 <= at < partitions.len(),
        partitions.no_duplicates(),
        nodes[names[n - 1]].partition.0 == partitions[at],
        !nodes[names[n - 1]].draining,
    ensures
        served(nodes, names, partitions, n, k) == served(
            nodes,
            names,
            partitions,
            (n - 1) as nat,
            k,
        ) + (if at < k {
            1int
        } else {
            0
        }),
    decreases k,
{
    if k > 0 {
        lemma_one_more_served(nodes, names, partitions, n, (k - 1) as nat, at);
    }
}

proof fn lemma_every_node_serves(
    nodes: Map<Seq<char>, NodeView>,
    names: Seq<Seq<char>>,
    addresses: Map<u32, Seq<Seq<char>>>,
    partitions: Seq<u32>,
    n: nat,
)
    requires
        bootstraps(nodes, addresses),
        lists_in_order(nodes, names),
        partitions.no_duplicates(),
        forall|p: u32| addresses.dom().contains(p) <==> partitions.contains(p),
        n <= names.len(),
    ensures
        served(nodes, names, partitions, n, partitions.len()) == n,
    decreases n,
{
    if n == 0 {
        lemma_none_served(nodes, names, partitions, partitions.len());
    } else {
        lemma_every_node_serves(nodes, names, addresses, partitions, (n - 1) as nat);
        let name = names[n - 1];
        assert(names.contains(name));
        assert(nodes.dom().contains(name));
        let (q, place) = choose|q: u32, place: int| #[trigger]
            has_peer(addresses, q, place) && name == peer_name(q, place);
        assert(has_entry(nodes, addresses, q, place));
        assert(partitions.contains(q));
        let at = partitions.index_of(q);
        lemma_one_more_served(nodes, names, partitions, n, partitions.len(), at);
    }
}

proof fn lemma_none_served(
    nodes: Map<Seq<char>, NodeView>,
    names: Seq<Seq<char>>,
    partitions: Seq<u32>,
    k: nat,
)
    ensures
        served(nodes, names, partitions, 0, k) == 0,
    decreases k,
{
    if k > 0 {
        lemma_none_served(nodes, names, partitions, (k - 1) as nat);
    }
}

proof fn lemma_all_served(
    nodes: Map<Seq<char>, NodeView>,
    names: Seq<Seq<char>>,
    addresses: Map<u32, Seq<Seq<char>>>,
    partitions: Seq<u32>,
    k: nat,
)
    requires
        k <= partitions.len(),
        forall|i: int|
            0 <= i < partitions.len() ==> serving(
                nodes,
                names,
                #[trigger] partitions[i],
                names.len(),
            ) == addresses[partitions[i]],
    ensures
        served(nodes, names, partitions, names.len(), k) == listed_addresses(
            addresses,
            partitions,
            k,
        ),
    decreases k,
{
    if k > 0 {
        lemma_all_served(nodes, names, addresses, partitions, (k - 1) as nat);
        assert(serving(nodes, names, partitions[k - 1], names.len())
            == addresses[partitions[k - 1]]);
    }
}

/// A directory that was made of up to ten addresses for each partition has a
/// node for each of them, and gives the addresses back, in their order. With
/// more, the eleventh place comes before the third in the order of names.
pub proof fn small_directory_gives_its_addresses_back(
    snapshot: SnapshotView,
    names: Seq<Seq<char>>,
    addresses: Map<u32, Seq<Seq<char>>>,
    partitions: Seq<u32>,
)
    requires
        bootstraps(snapshot.nodes, addresses),
        lists_in_order(snapshot.nodes, names),
        is_small_listing(addresses),
        partitions.no_duplicates(),
        forall|p: u32| addresses.dom().contains(p) <==> partitions.contains(p),
    ensures
        names.len() == listed_addresses(addresses, partitions, partitions.len()),
        addresses_of(snapshot.nodes, names) == addresses,
        forall|partition: u32, index: int|
            addresses.dom().contains(partition) && 0 <= index < addresses[partition].len()
                ==> snapshot.nodes.dom().contains(#[trigger] peer_name(partition, index))
                && snapshot.nodes[peer_name(partition, index)] == static_node(
                peer_name(partition, index),
                PartitionId(partition),
                addresses[partition][index],
            ),
{
    let nodes = snapshot.nodes;
    let back = addresses_of(nodes, names);
    assert forall|i: int| 0 <= i < partitions.len() implies serving(
        nodes,
        names,
        #[trigger] partitions[i],
        names.len(),
    ) == addresses[partitions[i]] by {
        assert(partitions.contains(partitions[i]));
        lemma_all_places_served(nodes, names, addresses, partitions[i]);
    }
    lemma_all_served(nodes, names, addresses, partitions, partitions.len());
    lemma_every_node_serves(nodes, names, addresses, partitions, names.len());
    assert forall|partition: u32| #[trigger] back.dom().contains(partition)
        <==> addresses.dom().contains(partition) by {
        let here = serving(nodes, names, partition, names.len());
        if addresses.dom().contains(partition) {
            lemma_all_places_served(nodes, names, addresses, partition);
            assert(0 < addresses[partition].len());
        } else if here.len() > 0 {
            bootstrapped_directory_serves_its_addresses(
                snapshot,
                names,
                addresses,
                partition,
                here[0],
            );
            assert(here.contains(here[0]));
        }
    }
    assert forall|partition: u32| back.dom().contains(partition) implies back[partition]
        == addresses[partition] by {
        lemma_all_places_served(nodes, names, addresses, partition);
    }
    assert(back =~= addresses);
    assert forall|partition: u32, index: int|
        addresses.dom().contains(partition) && 0 <= index
            < addresses[partition].len() implies nodes.dom().contains(
        #[trigger] peer_name(partition, index),
    ) && nodes[peer_name(partition, index)] == static_node(
        peer_name(partition, index),
        PartitionId(partition),
        addresses[partition][index],
    ) by {
        assert(is_address(addresses[partition][index]));
        assert(has_peer(addresses, partition, index));
        assert(has_entry(nodes, addresses, partition, index));
    }
}

proof fn lemma_all_places_served(
    nodes: Map<Seq<char>, NodeView>,
    names: Seq<Seq<char>>,
    addresses: Map<u32, Seq<Seq<char>>>,
    partition: u32,
)
    requires
        bootstraps(nodes, addresses),
        lists_in_order(nodes, names),
        is_small_listing(addresses),
        addresses.dom().contains(partition),
    ensures
        serving(nodes, names, partition, names.len()) == addresses[partition],
{
    let n = names.len();
    lemma_serves_first_places(nodes, names, addresses, partition, n);
    let here = serving(nodes, names, partition, n);
    if here.len() < addresses[partition].len() {
        let index = here.len() as int;
        assert(is_address(addresses[partition][index]));
        assert(has_peer(addresses, partition, index));
        assert(has_entry(nodes, addresses, partition, index));
        assert(names.contains(peer_name(partition, index)));
        assert(names.take(n as int) =~= names);
    }
    assert(addresses[partition].take(here.len() as int) =~= addresses[partition]);
}

/// An entry as the store keeps it.
#[derive(Clone, Debug, PartialEq, Eq)]
pub struct SerializedNodeMembership {
    pub node_id: String,
    pub partition: u32,
    pub grpc_addr: String,
    pub http_origin: Option<String>,
    pub raft_addr: Option<String>,
    pub generation: u64,
    pub draining: bool,
    pub lease_renewal_sequence: Option<u64>,
    pub heartbeat_expires_at_ms: Option<u64>,
}

impl View for SerializedNodeMembership {
    type V = NodeView;

    open spec fn view(&self) -> NodeView {
        NodeView {
            node_id: self.node_id@,
            partition: PartitionId(self.partition),
            grpc_addr: self.grpc_addr@,
            http_origin: text::optional(self.http_origin),
            raft_addr: text::optional(self.raft_addr),
            generation: self.generation,
            draining: self.draining,
            lease_renewal_sequence: self.lease_renewal_sequence,
            heartbeat_expires_at_ms: self.heartbeat_expires_at_ms,
        }
    }
}

/// A directory as the store keeps it.
#[derive(Clone, Debug, PartialEq, Eq)]
pub struct SerializedMembershipSnapshot {
    pub version: u64,
    pub nodes: Vec<SerializedNodeMembership>,
}

/// The views of stored entries.
pub open spec fn stored_list(nodes: Seq<SerializedNodeMembership>) -> Seq<NodeView> {
    Seq::new(nodes.len(), |i: int| nodes[i]@)
}

/// Why a stored entry is refused.
pub open spec fn entry_error(node: NodeView) -> Option<Seq<char>> {
    if !is_node_id(node.node_id) {
        Some(MembershipError::EmptyNodeId.text())
    } else if !is_address(node.grpc_addr) {
        Some(
            "cluster membership node "@ + node.node_id + " cannot have an empty gRPC address"@,
        )
    } else {
        None
    }
}

/// Why the first refused one of `n` stored entries is refused.
pub open spec fn entries_error(nodes: Seq<NodeView>, n: nat) -> Option<Seq<char>>
    decreases n,
{
    if n == 0 {
        None
    } else {
        match entries_error(nodes, (n - 1) as nat) {
            Some(error) => Some(error),
            None => entry_error(nodes[n - 1]),
        }
    }
}

/// A stored entry with its address trimmed.
pub open spec fn read_entry(node: NodeView) -> NodeView {
    NodeView { grpc_addr: text::trim(node.grpc_addr), ..node }
}

proof fn lemma_entries_error_stays(nodes: Seq<NodeView>, n: nat, m: nat)
    requires
        n <= m,
        entries_error(nodes, n) is Some,
    ensures
        entries_error(nodes, m) == entries_error(nodes, n),
    decreases m - n,
{
    if n < m {
        lemma_entries_error_stays(nodes, n, (m - 1) as nat);
    }
}

/// The listing holds the names in the directory, and each is the name of its
/// entry. Every directory is like this, with its own listing.
pub open spec fn names_nodes(snapshot: SnapshotView, names: Seq<Seq<char>>) -> bool {
    &&& forall|id: Seq<char>| snapshot.nodes.dom().contains(id) <==> names.contains(id)
    &&& forall|id: Seq<char>|
        snapshot.nodes.dom().contains(id) ==> (#[trigger] snapshot.nodes[id]).node_id == id
            && is_node_id(id)
}

impl SerializedMembershipSnapshot {
    /// The stored form of a directory, its entries in the order of their
    /// names.
    pub fn from_snapshot(snapshot: &MembershipSnapshot) -> (r: Self)
        requires
            snapshot.wf(),
        ensures
            r.version == snapshot@.version,
            stored_list(r.nodes@) == Seq::new(
                snapshot.names().len(),
                |i: int| snapshot@.nodes[snapshot.names()[i]],
            ),
            names_nodes(snapshot@, snapshot.names()),
    {
        let mut nodes: Vec<SerializedNodeMembership> = Vec::new();
        let ghost names = snapshot.names();
        let mut i: usize = 0;
        while i < snapshot.nodes.len()
            invariant
                snapshot.wf(),
                names == snapshot.names(),
                i <= names.len(),
                nodes@.len() == i,
                forall|k: int|
                    0 <= k < i ==> (#[trigger] nodes@[k])@ == snapshot@.nodes[names[k]],
                forall|k: int|
                    0 <= k < i ==> is_node_id(#[trigger] names[k])
                        && snapshot@.nodes[names[k]].node_id == names[k],
            decreases names.len() - i,
        {
            let node = snapshot.nodes.value_at(i);
            proof {
                snapshot.nodes.entries_agree();
                assert(snapshot@.nodes[names[i as int]] == node@);
            }
            nodes.push(
                SerializedNodeMembership {
                    node_id: node.node_id.as_str().to_owned(),
                    partition: node.partition.0,
                    grpc_addr: node.grpc_addr.clone(),
                    http_origin: duplicate_optional(&node.http_origin),
                    raft_addr: duplicate_optional(&node.raft_addr),
                    generation: node.generation,
                    draining: node.draining,
                    lease_renewal_sequence: node.lease_renewal_sequence,
                    heartbeat_expires_at_ms: node.heartbeat_expires_at_ms,
                },
            );
            i = i + 1;
        }
        let r = SerializedMembershipSnapshot { version: snapshot.version.0, nodes };
        proof {
            snapshot.nodes.entries_agree();
            assert forall|id: Seq<char>| snapshot@.nodes.dom().contains(id) implies (
            #[trigger] snapshot@.nodes[id]).node_id == id && is_node_id(id) by {
                let k = names.index_of(id);
                assert(names.contains(id));
                assert(names[k] == id);
            }
        }
        assert(stored_list(r.nodes@) =~= Seq::new(
            names.len(),
            |i: int| snapshot@.nodes[names[i]],
        ));
        r
    }

    /// The directory that was stored.
    pub fn into_snapshot(self) -> (r: Result<MembershipSnapshot, MembershipError>)
        ensures
            match r {
                Ok(snapshot) => {
                    &&& entries_error(stored_list(self.nodes@), self.nodes@.len()) is None
                    &&& snapshot.wf()
                    &&& snapshot@ == (SnapshotView {
                        version: self.version,
                        nodes: by_name(
                            stored_list(self.nodes@).map_values(|node: NodeView| read_entry(node)),
                        ),
                    })
                },
                Err(error) => entries_error(stored_list(self.nodes@), self.nodes@.len()) == Some(
                    error.text(),
                ),
            },
    {
        let ghost list = stored_list(self.nodes@);
        let mut nodes: Vec<NodeMembership> = Vec::new();
        let mut i: usize = 0;
        while i < self.nodes.len()
            invariant
                list == stored_list(self.nodes@),
                i <= self.nodes@.len(),
                entries_error(list, i as nat) is None,
                nodes@.len() == i,
                forall|k: int| 0 <= k < i ==> (#[trigger] nodes@[k])@ == read_entry(list[k]),
            decreases self.nodes@.len() - i,
        {
            let stored = &self.nodes[i];
            assert(list[i as int] == stored@);
            let node_id = match ClusterNodeId::new(stored.node_id.as_str()) {
                Ok(node_id) => node_id,
                Err(error) => {
                    proof {
                        assert(entries_error(list, (i + 1) as nat) == Some(error.text()));
                        lemma_entries_error_stays(list, (i + 1) as nat, self.nodes@.len());
                    }
                    return Err(error);
                },
            };
            let mut node = match NodeMembership::new(
                node_id,
                PartitionId(stored.partition),
                stored.grpc_addr.as_str(),
            ) {
                Ok(node) => node,
                Err(error) => {
                    proof {
                        assert(entries_error(list, (i + 1) as nat) == Some(error.text()));
                        lemma_entries_error_stays(list, (i + 1) as nat, self.nodes@.len());
                    }
                    return Err(error);
                },
            };
            node.http_origin = duplicate_optional(&stored.http_origin);
            node.raft_addr = duplicate_optional(&stored.raft_addr);
            node.generation = stored.generation;
            node.draining = stored.draining;
            node.lease_renewal_sequence = stored.lease_renewal_sequence;
            node.heartbeat_expires_at_ms = stored.heartbeat_expires_at_ms;
            let ghost earlier = nodes@;
            let ghost read = node@;
            nodes.push(node);
            proof {
                assert(read == read_entry(list[i as int]));
                assert(entries_error(list, (i + 1) as nat) is None);
                assert forall|k: int| 0 <= k < i + 1 implies (#[trigger] nodes@[k])@ == read_entry(
                    list[k],
                ) by {
                    if k < i {
                        assert(nodes@[k] == earlier[k]);
                    }
                }
            }
            i = i + 1;
        }
        assert(node_list(nodes@) =~= list.map_values(|node: NodeView| read_entry(node)));
        Ok(MembershipSnapshot::new(MembershipVersion(self.version), nodes))
    }
}

/// The stored form of the directory, where `names` lists its names in order.
pub open spec fn stored_form(snapshot: SnapshotView, names: Seq<Seq<char>>) -> Seq<NodeView> {
    Seq::new(names.len(), |i: int| snapshot.nodes[names[i]])
}

proof fn lemma_by_name_of_names(
    nodes: Map<Seq<char>, NodeView>,
    names: Seq<Seq<char>>,
    list: Seq<NodeView>,
    n: nat,
)
    requires
        n <= names.len(),
        list == Seq::new(names.len(), |i: int| nodes[names[i]]),
        forall|i: int| 0 <= i < names.len() ==> nodes.dom().contains(#[trigger] names[i]),
        forall|id: Seq<char>|
            nodes.dom().contains(id) ==> (#[trigger] nodes[id]).node_id == id,
    ensures
        by_name(list.take(n as int)) == nodes.restrict(names.take(n as int).to_set()),
    decreases n,
{
    if n == 0 {
        assert(by_name(list.take(0)) =~= nodes.restrict(names.take(0).to_set()));
    } else {
        lemma_by_name_of_names(nodes, names, list, (n - 1) as nat);
        assert(list.take(n as int).drop_last() =~= list.take(n - 1));
        let last = names[n - 1];
        assert(nodes.dom().contains(last));
        assert(list.take(n as int).last() == nodes[last]);
        assert(names.take(n as int) =~= names.take(n - 1).push(last));
        assert forall|x: Seq<char>| names.take(n as int).to_set().contains(x) <==> names.take(
            n - 1,
        ).to_set().insert(last).contains(x) by {
            if names.take(n - 1).contains(x) {
                let i = names.take(n - 1).index_of(x);
                assert(names.take(n as int)[i] == x);
            }
            if x == last {
                assert(names.take(n as int)[n - 1] == x);
            }
            if names.take(n as int).contains(x) {
                let i = names.take(n as int).index_of(x);
                if i < n - 1 {
                    assert(names.take(n - 1)[i] == x);
                }
            }
        }
        assert(nodes.restrict(names.take(n - 1).to_set()).insert(last, nodes[last])
            =~= nodes.restrict(names.take(n as int).to_set()));
    }
}

proof fn lemma_no_entry_refused(nodes: Seq<NodeView>, n: nat)
    requires
        n <= nodes.len(),
        forall|i: int| 0 <= i < nodes.len() ==> entry_error(#[trigger] nodes[i]) is None,
    ensures
        entries_error(nodes, n) is None,
    decreases n,
{
    if n > 0 {
        lemma_no_entry_refused(nodes, (n - 1) as nat);
    }
}

/// A directory is read from the store as it was put there, its addresses
/// trimmed. Only one that has a node without an address is refused.
pub proof fn directory_survives_the_store(snapshot: SnapshotView, names: Seq<Seq<char>>)
    requires
        names_nodes(snapshot, names),
        forall|id: Seq<char>|
            snapshot.nodes.dom().contains(id) ==> is_address(
                (#[trigger] snapshot.nodes[id]).grpc_addr,
            ),
    ensures
        entries_error(stored_form(snapshot, names), names.len()) is None,
        by_name(
            stored_form(snapshot, names).map_values(|node: NodeView| read_entry(node)),
        ) == snapshot.nodes.map_values(|node: NodeView| read_entry(node)),
        (forall|id: Seq<char>|
            snapshot.nodes.dom().contains(id) ==> text::trim(
                (#[trigger] snapshot.nodes[id]).grpc_addr,
            ) == snapshot.nodes[id].grpc_addr) ==> snapshot.nodes.map_values(
            |node: NodeView| read_entry(node),
        ) == snapshot.nodes,
{
    let list = stored_form(snapshot, names);
    assert forall|i: int| 0 <= i < names.len() implies snapshot.nodes.dom().contains(
        #[trigger] names[i],
    ) by {
        assert(names.contains(names[i]));
    }
    assert forall|i: int| 0 <= i < list.len() implies entry_error(#[trigger] list[i]) is None by {
        assert(snapshot.nodes.dom().contains(names[i]));
    }
    lemma_no_entry_refused(list, names.len());
    let read = list.map_values(|node: NodeView| read_entry(node));
    let nodes = snapshot.nodes.map_values(|node: NodeView| read_entry(node));
    let wanted = Seq::new(names.len(), |i: int| nodes[names[i]]);
    assert forall|i: int| 0 <= i < read.len() implies read[i] == wanted[i] by {
        assert(snapshot.nodes.dom().contains(names[i]));
    }
    assert(read =~= wanted);
    assert forall|i: int| 0 <= i < names.len() implies nodes.dom().contains(
        #[trigger] names[i],
    ) by {
        assert(snapshot.nodes.dom().contains(names[i]));
    }
    assert forall|id: Seq<char>| nodes.dom().contains(id) implies (
    #[trigger] nodes[id]).node_id == id by {
        assert(snapshot.nodes[id].node_id == id);
    }
    lemma_by_name_of_names(nodes, names, read, names.len());
    assert(read.take(names.len() as int) =~= read);
    assert(names.take(names.len() as int) =~= names);
    assert(nodes.restrict(names.to_set()) =~= nodes);
    if forall|id: Seq<char>|
        snapshot.nodes.dom().contains(id) ==> text::trim(
            (#[trigger] snapshot.nodes[id]).grpc_addr,
        ) == snapshot.nodes[id].grpc_addr {
        assert forall|id: Seq<char>| snapshot.nodes.dom().contains(id) implies nodes[id]
            == snapshot.nodes[id] by {
            assert(read_entry(snapshot.nodes[id]) =~= snapshot.nodes[id]);
        }
        assert(nodes =~= snapshot.nodes);
    }
}

/// A text names a node, or is an address, exactly where it holds a character that
/// is no white space.
pub proof fn blank_texts_name_nothing(s: Seq<char>)
    ensures
        is_node_id(s) <==> exists|i: int|
            0 <= i < s.len() && !text::is_white_space(#[trigger] s[i]),
        is_address(s) <==> exists|i: int|
            0 <= i < s.len() && !text::is_white_space(#[trigger] s[i]),
{
    let at = text::trimming_takes_the_outer_white_space(s);
    let kept = text::trim(s);
    if kept.len() > 0 {
        assert(kept[0] == s[at.0]);
        assert(!text::is_white_space(s[at.0]));
    }
    if exists|i: int| 0 <= i < s.len() && !text::is_white_space(#[trigger] s[i]) {
        let i = choose|i: int| 0 <= i < s.len() && !text::is_white_space(#[trigger] s[i]);
        assert(at.0 <= i < at.1);
    }
}

/// Revisions are ordered by the life of the node first, and by the count of its
/// renewals within one.
pub proof fn revisions_order_lives_before_renewals(a: LeaseRevision, b: LeaseRevision)
    ensures
        a.generation < b.generation ==> a.precedes(b) && !b.precedes(a),
        a.generation == b.generation ==> (a.precedes(b) <==> a.renewal_sequence
            < b.renewal_sequence),
        a.precedes(b) || b.precedes(a) || a == b,
{
}

/// An entry has a lease where it counts renewals, or else where it names a
/// deadline, as one without renewals. An entry with neither is static.
pub proof fn leases_are_told_by_renewals(node: NodeView)
    ensures
        node.lease_revision() is None <==> node.lease_renewal_sequence is None
            && node.heartbeat_expires_at_ms is None,
        node.lease_revision() matches Some(revision) ==> revision.generation == node.generation
            && revision.renewal_sequence == (match node.lease_renewal_sequence {
            Some(n) => n,
            None => 0,
        }),
{
}

/// A directory that is made of a list has each listed node, and of two entries
/// with one name the later.
pub proof fn later_entries_replace_earlier_ones(nodes: Seq<NodeView>, i: int, id: Seq<char>)
    ensures
        0 <= i < nodes.len() && nodes[i].node_id == id && (forall|k: int|
            i < k < nodes.len() ==> (#[trigger] nodes[k]).node_id != id) ==> by_name(
            nodes,
        ).dom().contains(id) && by_name(nodes)[id] == nodes[i],
        by_name(nodes).dom().contains(id) ==> exists|k: int|
            0 <= k < nodes.len() && (#[trigger] nodes[k]).node_id == id,
    decreases nodes.len(),
{
    if nodes.len() > 0 {
        let earlier = nodes.drop_last();
        assert forall|k: int| 0 <= k < earlier.len() implies #[trigger] earlier[k] == nodes[k] by {}
        later_entries_replace_earlier_ones(earlier, i, id);
        let last = nodes.len() - 1;
        assert(nodes.last() == nodes[last]);
        if by_name(nodes).dom().contains(id) && nodes[last].node_id != id {
            let k = choose|k: int|
                0 <= k < earlier.len() && (#[trigger] earlier[k]).node_id == id;
            assert(nodes[k].node_id == id);
        }
    }
}

/// A node that asks to be in the directory is, with what it says, unless a later
/// life of it is there already. Its entry counts one renewal more than before, and
/// the directory one version more.
pub proof fn registrations_are_taken_in(snapshot: SnapshotView, node: NodeView)
    ensures
        ({
            let known = snapshot.nodes.dom().contains(node.node_id);
            let existing = snapshot.nodes[node.node_id];
            let outlived = known && node.generation < existing.generation;
            let after = registered(snapshot, node);
            let entry = after.nodes[node.node_id];
            let renewals = if known {
                match existing.lease_renewal_sequence {
                    Some(n) => n,
                    None => 0,
                }
            } else {
                0
            };
            &&& outlived ==> after == snapshot
            &&& !outlived ==> {
                &&& after.nodes.dom().contains(node.node_id)
                &&& entry.node_id == node.node_id
                &&& entry.partition == node.partition
                &&& entry.grpc_addr == node.grpc_addr
                &&& entry.http_origin == node.http_origin
                &&& entry.raft_addr == node.raft_addr
                &&& entry.generation == node.generation
                &&& entry.draining == node.draining
                &&& entry.heartbeat_expires_at_ms == node.heartbeat_expires_at_ms
                &&& renewals < u64::MAX ==> entry.lease_renewal_sequence == Some(
                    (renewals + 1) as u64,
                )
                &&& renewals == u64::MAX ==> entry.lease_renewal_sequence == Some(u64::MAX)
                &&& renewals < u64::MAX && snapshot.version < u64::MAX ==> after.version
                    == snapshot.version + 1
            }
        }),
{
}

/// The time since an earlier reading of the clock is the difference, and since a
/// later one there is none.
pub proof fn time_runs_forward(now: u64, then_at: u64)
    ensures
        then_at <= now ==> elapsed_since(now, then_at) + then_at == now,
        now <= then_at ==> elapsed_since(now, then_at) == 0,
{
}

/// What an observer knows of a lease is the newest revision that it has seen, and
/// when it saw that first. The lease has run out where that is a whole lease ago,
/// and a deadline by another clock is noted where it says otherwise.
pub proof fn observers_keep_the_newest_revision(
    seen: LeaseObservation,
    revision: LeaseRevision,
    deadline: Option<u64>,
    observed_at: u64,
    wall_ms: u64,
    lease_ttl: u64,
)
    ensures
        ({
            let after = observed(
                Some(seen),
                revision,
                deadline,
                observed_at,
                wall_ms,
                lease_ttl,
            );
            let first = observed(None, revision, deadline, observed_at, wall_ms, lease_ttl);
            let older = revision.generation < seen.revision.generation || (revision.generation
                == seen.revision.generation && revision.renewal_sequence
                < seen.revision.renewal_sequence);
            let fresh = observed_at < seen.last_renewal_observed_at || observed_at
                - seen.last_renewal_observed_at < lease_ttl;
            &&& older ==> after == seen
            &&& !older ==> after.revision == revision
            &&& revision == seen.revision ==> after.last_renewal_observed_at
                == seen.last_renewal_observed_at
            &&& revision == seen.revision && 0 < lease_ttl ==> (after.expired <==> !fresh)
            &&& !older && revision != seen.revision ==> after.last_renewal_observed_at
                == observed_at && (after.expired <==> lease_ttl == 0)
            &&& first.revision == revision
            &&& first.last_renewal_observed_at == observed_at
            &&& first.expired <==> lease_ttl == 0
            &&& !older && deadline is Some ==> (after.last_clock_disagreement is Some <==> (
            wall_ms < deadline->Some_0) == after.expired)
            &&& !older && deadline is Some ==> (after.last_clock_disagreement matches Some(d)
                ==> d.timestamp_is_live == (wall_ms < deadline->Some_0) && d.renewal_is_live
                == !after.expired)
            &&& deadline is None ==> after.last_clock_disagreement == seen.last_clock_disagreement
        }),
{
}

/// The directory of the living has those entries that live, as they are, in the
/// same version. An observer goes on knowing what it knew of nodes that it does not
/// see.
pub proof fn living_nodes_keep_their_entries(
    tracker: TrackerView,
    snapshot: SnapshotView,
    id: Seq<char>,
    observed_at: u64,
    wall_ms: u64,
)
    ensures
        tracker.living(snapshot, observed_at).version == snapshot.version,
        tracker.living(snapshot, observed_at).nodes.dom().contains(id) <==>
            snapshot.nodes.dom().contains(id) && tracker.lives(snapshot.nodes[id], observed_at),
        tracker.living(snapshot, observed_at).nodes.dom().contains(id) ==> tracker.living(
            snapshot,
            observed_at,
        ).nodes[id] == snapshot.nodes[id],
        snapshot.nodes.dom().contains(id) && snapshot.nodes[id].draining ==> !tracker.living(
            snapshot,
            observed_at,
        ).nodes.dom().contains(id),
        tracker.observations.dom().contains(id) && !snapshot.nodes.dom().contains(id)
            ==> tracker.after(snapshot, observed_at, wall_ms).known(id) == tracker.known(id),
        tracker.after(snapshot, observed_at, wall_ms).lease_ttl == tracker.lease_ttl,
{
}

/// A partition is served at the addresses of all of its nodes that are not on their
/// way out, wherever their names stand, and at no other.
pub proof fn partitions_are_served_by_their_nodes(
    nodes: Map<Seq<char>, NodeView>,
    names: Seq<Seq<char>>,
    partition: u32,
    n: nat,
    address: Seq<char>,
)
    requires
        n <= names.len(),
    ensures
        serving(nodes, names, partition, n).contains(address) <==> exists|k: int|
            0 <= k < n && !nodes[#[trigger] names[k]].draining && nodes[names[k]].partition
                == PartitionId(partition) && nodes[names[k]].grpc_addr == address,
    decreases n,
{
    let now = serving(nodes, names, partition, n);
    if n == 0 {
        assert(!now.contains(address));
    } else {
        partitions_are_served_by_their_nodes(nodes, names, partition, (n - 1) as nat, address);
        let before = serving(nodes, names, partition, (n - 1) as nat);
        let node = nodes[names[n - 1]];
        if !node.draining && node.partition.0 == partition {
            assert(node.partition == PartitionId(partition));
            assert(now == before.push(node.grpc_addr));
            assert(now[before.len() as int] == node.grpc_addr);
            if before.contains(address) {
                assert(now[before.index_of(address)] == address);
            }
            if now.contains(address) && !before.contains(address) {
                let at = now.index_of(address);
                assert(at == before.len()) by {
                    if at < before.len() {
                        assert(before[at] == address);
                    }
                }
                assert(nodes[names[n - 1]].grpc_addr == address);
            }
        }
    }
}

/// The addresses of a partition stand in the order of the nodes' names, one for
/// each node.
pub proof fn served_addresses_follow_the_names(
    nodes: Map<Seq<char>, NodeView>,
    names: Seq<Seq<char>>,
    partition: u32,
    m: nat,
    n: nat,
)
    requires
        m <= n <= names.len(),
    ensures
        serving(nodes, names, partition, m).is_prefix_of(serving(nodes, names, partition, n)),
        serving(nodes, names, partition, n).len() <= serving(nodes, names, partition, m).len() + (n
            - m),
        (forall|k: int|
            m <= k < n ==> !nodes[#[trigger] names[k]].draining && nodes[names[k]].partition
                == PartitionId(partition)) ==> serving(nodes, names, partition, n).len()
            == serving(nodes, names, partition, m).len() + (n - m),
        addresses_of(nodes, names).dom().contains(partition) <==> serving(
            nodes,
            names,
            partition,
            names.len(),
        ).len() > 0,
        addresses_of(nodes, names).dom().contains(partition) ==> addresses_of(
            nodes,
            names,
        )[partition] == serving(nodes, names, partition, names.len()),
    decreases n - m,
{
    if m < n {
        served_addresses_follow_the_names(nodes, names, partition, m, (n - 1) as nat);
    }
}

/// A node that is known by its address alone is named after its place, is of its
/// partition, has no lease and is not on its way out.
pub proof fn listed_addresses_become_static_entries(
    nodes: Map<Seq<char>, NodeView>,
    addresses: Map<u32, Seq<Seq<char>>>,
    partition: u32,
    index: int,
)
    requires
        bootstraps(nodes, addresses),
        addresses.dom().contains(partition),
        0 <= index < addresses[partition].len(),
        text::trim(addresses[partition][index]).len() > 0,
    ensures
        ({
            let name = "partition-"@ + text::decimal(partition as nat) + "-peer-"@ + text::decimal(
                index as nat,
            );
            let node = nodes[name];
            &&& nodes.dom().contains(name)
            &&& node.node_id == name
            &&& node.partition == PartitionId(partition)
            &&& node.grpc_addr == text::trim(addresses[partition][index])
            &&& node.http_origin is None
            &&& node.raft_addr is None
            &&& node.generation == 0
            &&& !node.draining
            &&& node.lease_revision() is None
        }),
{
    assert(has_peer(addresses, partition, index));
}

/// A stored directory is refused exactly where an entry, at any place, has a blank
/// name or a blank address.
pub proof fn stored_entries_need_a_name_and_an_address(nodes: Seq<NodeView>, n: nat)
    requires
        n <= nodes.len(),
    ensures
        entries_error(nodes, n) is None <==> forall|i: int|
            0 <= i < n ==> is_node_id((#[trigger] nodes[i]).node_id) && is_address(
                nodes[i].grpc_addr,
            ),
    decreases n,
{
    if n > 0 {
        stored_entries_need_a_name_and_an_address(nodes, (n - 1) as nat);
    }
}

/// A stored entry is read with its address trimmed and everything else as it is.
pub proof fn stored_entries_are_read_trimmed(node: NodeView)
    ensures
        read_entry(node).grpc_addr == text::trim(node.grpc_addr),
        read_entry(node) == (NodeView { grpc_addr: text::trim(node.grpc_addr), ..node }),
{
}

/// Two entries are the same exactly where all of their parts are.
pub proof fn same_entries_agree_in_every_part(a: NodeMembership, b: NodeMembership)
    ensures
        a@ == b@ <==> {
            &&& a.node_id@ == b.node_id@
            &&& a.partition == b.partition
            &&& a.grpc_addr@ == b.grpc_addr@
            &&& text::optional(a.http_origin) == text::optional(b.http_origin)
            &&& text::optional(a.raft_addr) == text::optional(b.raft_addr)
            &&& a.generation == b.generation
            &&& a.draining == b.draining
            &&& a.lease_renewal_sequence == b.lease_renewal_sequence
            &&& a.heartbeat_expires_at_ms == b.heartbeat_expires_at_ms
        },
{
}

/// A stored entry is refused for its first fault: that it has no name, and then
/// that it has no address, with the name that it has.
pub proof fn stored_entries_are_refused_for_cause(node: NodeView)
    ensures
        text::trim(node.node_id).len() == 0 ==> entry_error(node) == Some(
            "cluster node id cannot be empty"@,
        ),
        text::trim(node.node_id).len() > 0 && text::trim(node.grpc_addr).len() == 0 ==> entry_error(
            node,
        ) == Some(
            "cluster membership node "@ + node.node_id + " cannot have an empty gRPC address"@,
        ),
{
}

} // verus!
