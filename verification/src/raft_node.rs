//! What one member of a partition's Raft group decides.
//!
//! The consensus protocol itself, its log and the transport are driven from
//! outside: the driver hands in what the protocol shows ([`RaftStatus`]) and
//! what happened, and carries out what comes back. Log indexes that wait for
//! an answer stand here for the waiting clients. Times are nanosecond readings
//! of one monotonic clock.

use vstd::prelude::*;

use crate::big_endian;
use crate::ordered;
use crate::ordered::{IndexSet, SortedMap};
use crate::partition::PartitionId;

verus! {

/// The run loop ticks every 100 ms.
pub const TICK_INTERVAL: u64 = 100_000_000;

/// Configuration for a Raft node.
#[derive(Clone, Debug)]
pub struct RaftNodeConfig {
    /// This node's ID within the Raft group.
    pub node_id: u64,
    /// Partition this Raft group manages.
    pub partition_id: PartitionId,
    /// IDs of all nodes in this Raft group (including self).
    pub peers: Vec<u64>,
    /// Election timeout in ticks.
    pub election_tick: usize,
    /// Heartbeat interval in ticks.
    pub heartbeat_tick: usize,
}

/// What a [`RaftNodeConfig`] states.
pub struct ConfigView {
    pub node_id: u64,
    pub partition_id: PartitionId,
    pub peers: Seq<u64>,
    pub election_tick: usize,
    pub heartbeat_tick: usize,
}

impl View for RaftNodeConfig {
    type V = ConfigView;

    open spec fn view(&self) -> ConfigView {
        ConfigView {
            node_id: self.node_id,
            partition_id: self.partition_id,
            peers: self.peers@,
            election_tick: self.election_tick,
            heartbeat_tick: self.heartbeat_tick,
        }
    }
}

/// The nanoseconds in a number of ticks, which is taken modulo 2^32.
pub open spec fn ticks(n: usize) -> int {
    TICK_INTERVAL * (n as u32)
}

impl ConfigView {
    /// How long a serving lease lasts: two heartbeats, within one tick of the
    /// election timeout, and one tick at least.
    pub open spec fn lease_duration(self) -> int {
        let twice = 2 * ticks(self.heartbeat_tick);
        let longest = if ticks(self.election_tick) > TICK_INTERVAL {
            ticks(self.election_tick) - TICK_INTERVAL
        } else {
            0
        };
        let lease = if twice < longest {
            twice
        } else {
            longest
        };
        if lease < TICK_INTERVAL {
            TICK_INTERVAL as int
        } else {
            lease
        }
    }
}

/// A lease ends before a follower that heard nothing may start an election,
/// wherever the election timeout is at least two ticks.
pub proof fn lease_ends_before_an_election(config: ConfigView)
    requires
        ticks(config.election_tick) >= 2 * TICK_INTERVAL,
    ensures
        TICK_INTERVAL <= config.lease_duration() <= ticks(config.election_tick) - TICK_INTERVAL,
{
}

impl Default for RaftNodeConfig {
    fn default() -> (r: Self)
        ensures
            r@ == (ConfigView {
                node_id: 1,
                partition_id: PartitionId(0),
                peers: seq![1u64],
                election_tick: 10,
                heartbeat_tick: 3,
            }),
    {
        let mut peers: Vec<u64> = Vec::new();
        peers.push(1);
        assert(peers@ =~= seq![1u64]);
        RaftNodeConfig {
            node_id: 1,
            partition_id: PartitionId(0),
            peers,
            election_tick: 10,
            heartbeat_tick: 3,
        }
    }
}

/// The time that a number of ticks takes.
fn tick_time(n: usize) -> (r: u64)
    ensures
        r == ticks(n),
        r <= 0x0600_0000_0000_0000,
{
    let n: u32 = #[verifier::truncate] (n as u32);
    TICK_INTERVAL * (n as u64)
}

impl RaftNodeConfig {
    pub fn leader_serving_lease_duration(&self) -> (r: u64)
        ensures
            r == self@.lease_duration(),
    {
        let twice: u64 = tick_time(self.heartbeat_tick) * 2;
        let election: u64 = tick_time(self.election_tick);
        let longest: u64 = if election > TICK_INTERVAL {
            election - TICK_INTERVAL
        } else {
            0
        };
        let lease: u64 = if twice < longest {
            twice
        } else {
            longest
        };
        if lease < TICK_INTERVAL {
            TICK_INTERVAL
        } else {
            lease
        }
    }

    /// The settings that the consensus protocol runs with.
    pub fn raft_settings(&self, applied: u64) -> (r: RaftSettings)
        ensures
            r == (RaftSettings {
                id: self@.node_id,
                election_tick: self@.election_tick,
                heartbeat_tick: self@.heartbeat_tick,
                max_size_per_msg: 1048576,
                max_inflight_msgs: 256,
                applied,
                check_quorum: true,
                pre_vote: true,
                safe_reads: true,
            }),
    {
        RaftSettings {
            id: self.node_id,
            election_tick: self.election_tick,
            heartbeat_tick: self.heartbeat_tick,
            max_size_per_msg: 1048576,
            max_inflight_msgs: 256,
            applied,
            check_quorum: true,
            pre_vote: true,
            safe_reads: true,
        }
    }
}

/// Settings of the consensus protocol.
#[derive(Clone, Copy, Debug, PartialEq, Eq, Structural)]
pub struct RaftSettings {
    pub id: u64,
    pub election_tick: usize,
    pub heartbeat_tick: usize,
    pub max_size_per_msg: u64,
    pub max_inflight_msgs: usize,
    /// Replay starts after this index: the durably applied one, which may lie
    /// below what the log has committed.
    pub applied: u64,
    pub check_quorum: bool,
    pub pre_vote: bool,
    /// Reads are confirmed by a quorum rather than by the leader's clock.
    pub safe_reads: bool,
}

/// What became of a proposal.
#[derive(Clone, Copy, Debug, PartialEq, Eq, Structural)]
pub enum RaftProposalResult {
    Committed { index: u64 },
    Rejected,
}

/// What the consensus protocol shows at a moment.
#[derive(Clone, Copy, Debug, PartialEq, Eq, Structural)]
pub struct RaftStatus {
    pub term: u64,
    /// The protocol's own role is leader.
    pub leads: bool,
    /// The highest committed log index.
    pub committed: u64,
    /// The highest log index.
    pub last_index: u64,
}

/// The identity of a snapshot and the voters it names.
#[derive(Clone, Debug)]
pub struct SnapshotMetadata {
    pub index: u64,
    pub term: u64,
    pub voters: Vec<u64>,
}

/// A quorum round that may mint a serving lease. Its deadline is fixed when
/// the request is sent, never when responses arrive.
#[derive(Clone, Debug)]
pub struct ServingLeaseRound {
    pub term: u64,
    pub context: Vec<u8>,
    pub valid_until: u64,
}

/// What a [`ServingLeaseRound`] stands for.
pub struct RoundView {
    pub term: u64,
    pub context: Seq<u8>,
    pub valid_until: u64,
}

impl View for ServingLeaseRound {
    type V = RoundView;

    open spec fn view(&self) -> RoundView {
        RoundView {
            term: self.term,
            context: self.context@,
            valid_until: self.valid_until,
        }
    }
}

/// Proof that local proposals were committed before a snapshot entered Raft.
#[derive(Clone, Debug)]
pub struct SnapshotProposalIdentity {
    pub snapshot_index: u64,
    pub snapshot_term: u64,
    pub locally_committed_proposal_indexes: IndexSet,
}

/// What a [`SnapshotProposalIdentity`] stands for.
pub struct ProofView {
    pub snapshot_index: u64,
    pub snapshot_term: u64,
    pub committed: Set<u64>,
}

impl View for SnapshotProposalIdentity {
    type V = ProofView;

    open spec fn view(&self) -> ProofView {
        ProofView {
            snapshot_index: self.snapshot_index,
            snapshot_term: self.snapshot_term,
            committed: self.locally_committed_proposal_indexes@.dom(),
        }
    }
}

impl ProofView {
    /// The proof is about the snapshot.
    pub open spec fn is_about(self, index: u64, term: u64) -> bool {
        self.snapshot_index == index && self.snapshot_term == term
    }
}

impl SnapshotProposalIdentity {
    pub open spec fn wf(&self) -> bool {
        self.locally_committed_proposal_indexes.wf()
    }

    /// Whether the proof is about the snapshot.
    pub fn matches(&self, index: u64, term: u64) -> (r: bool)
        ensures
            r == self@.is_about(index, term),
    {
        self.snapshot_index == index && self.snapshot_term == term
    }

    pub fn duplicate(&self) -> (r: Self)
        requires
            self.wf(),
        ensures
            r.wf(),
            r@ == self@,
    {
        SnapshotProposalIdentity {
            snapshot_index: self.snapshot_index,
            snapshot_term: self.snapshot_term,
            locally_committed_proposal_indexes: ordered::duplicate_indexes(
                &self.locally_committed_proposal_indexes,
            ),
        }
    }
}

/// What marks the read requests of serving-lease rounds:
/// `convex-serving-lease-v1` and a zero byte.
pub open spec fn context_prefix() -> Seq<u8> {
    seq![
        99u8, 111u8, 110u8, 118u8, 101u8, 120u8, 45u8, 115u8, 101u8, 114u8, 118u8, 105u8, 110u8,
        103u8, 45u8, 108u8, 101u8, 97u8, 115u8, 101u8, 45u8, 118u8, 49u8, 0u8,
    ]
}

/// The context of a serving-lease round.
pub open spec fn lease_context(node_id: u64, term: u64, nonce: u64) -> Seq<u8> {
    context_prefix() + big_endian::u64_bytes(node_id) + big_endian::u64_bytes(term)
        + big_endian::u64_bytes(nonce)
}

/// Two rounds never share a context: it names the node, the term and the
/// round.
pub proof fn lease_context_is_unique(a: (u64, u64, u64), b: (u64, u64, u64))
    requires
        lease_context(a.0, a.1, a.2) == lease_context(b.0, b.1, b.2),
    ensures
        a == b,
{
    let ca = lease_context(a.0, a.1, a.2);
    let cb = lease_context(b.0, b.1, b.2);
    big_endian::u64_bytes_read_back(a.0);
    big_endian::u64_bytes_read_back(a.1);
    big_endian::u64_bytes_read_back(a.2);
    big_endian::u64_bytes_read_back(b.0);
    big_endian::u64_bytes_read_back(b.1);
    big_endian::u64_bytes_read_back(b.2);
    assert(ca.subrange(24, 32) =~= big_endian::u64_bytes(a.0));
    assert(cb.subrange(24, 32) =~= big_endian::u64_bytes(b.0));
    assert(ca.subrange(32, 40) =~= big_endian::u64_bytes(a.1));
    assert(cb.subrange(32, 40) =~= big_endian::u64_bytes(b.1));
    assert(ca.subrange(40, 48) =~= big_endian::u64_bytes(a.2));
    assert(cb.subrange(40, 48) =~= big_endian::u64_bytes(b.2));
}

/// The context of a serving-lease round.
pub fn serving_lease_read_index_context(node_id: u64, term: u64, nonce: u64) -> (r: Vec<u8>)
    ensures
        r@ == lease_context(node_id, term, nonce),
{
    let mut context: Vec<u8> = vec![
        99u8, 111u8, 110u8, 118u8, 101u8, 120u8, 45u8, 115u8, 101u8, 114u8, 118u8, 105u8, 110u8,
        103u8, 45u8, 108u8, 101u8, 97u8, 115u8, 101u8, 45u8, 118u8, 49u8, 0u8,
    ];
    assert(context@ =~= context_prefix());
    big_endian::push_u64(&mut context, node_id);
    big_endian::push_u64(&mut context, term);
    big_endian::push_u64(&mut context, nonce);
    context
}

/// Proposals that got their answer.
#[derive(Clone, Debug)]
pub struct Resolutions {
    pub committed: IndexSet,
    pub rejected: IndexSet,
}

impl Resolutions {
    pub open spec fn wf(&self) -> bool {
        self.committed.wf() && self.rejected.wf()
    }
}

/// What a [`RaftNode`] holds.
pub struct NodeView {
    pub config: ConfigView,
    /// The application was told that this node leads.
    pub is_leader: bool,
    /// The leader has durably applied its current-term barrier.
    pub is_ready: bool,
    /// The term and the log index that must be durably applied before this
    /// elected leader may serve application traffic.
    pub barrier: Option<(u64, u64)>,
    /// The highest index durably applied to the local state machine.
    pub durable_applied: u64,
    /// Applied indexes above it that wait for earlier gaps.
    pub applied_ahead: Set<u64>,
    /// The number of serving-lease rounds started.
    pub rounds: u64,
    pub round: Option<RoundView>,
    /// The last deadline told to the application.
    pub published: Option<u64>,
    pub snapshot_proof: Option<ProofView>,
    /// The log indexes of local proposals that wait for their answer.
    pub proposals: Set<u64>,
}

/// A member of a partition's Raft group.
pub struct RaftNode {
    config: RaftNodeConfig,
    is_leader_flag: bool,
    is_leader_ready_flag: bool,
    leader_readiness_barrier: Option<(u64, u64)>,
    durable_applied_index: u64,
    applied_indexes_pending_persistence: IndexSet,
    next_serving_lease_round_nonce: u64,
    pending_serving_lease_round: Option<ServingLeaseRound>,
    published_serving_lease_expires_at: Option<u64>,
    pending_snapshot_proposal_identity: Option<SnapshotProposalIdentity>,
    pending_proposals: IndexSet,
}

/// What an optional round stands for.
pub open spec fn round_view(round: Option<ServingLeaseRound>) -> Option<RoundView> {
    match round {
        Some(round) => Some(round@),
        None => None,
    }
}

/// What an optional proof stands for.
pub open spec fn proof_view(identity: Option<SnapshotProposalIdentity>) -> Option<ProofView> {
    match identity {
        Some(identity) => Some(identity@),
        None => None,
    }
}

impl View for RaftNode {
    type V = NodeView;

    closed spec fn view(&self) -> NodeView {
        NodeView {
            config: self.config@,
            is_leader: self.is_leader_flag,
            is_ready: self.is_leader_ready_flag,
            barrier: self.leader_readiness_barrier,
            durable_applied: self.durable_applied_index,
            applied_ahead: self.applied_indexes_pending_persistence@.dom(),
            rounds: self.next_serving_lease_round_nonce,
            round: round_view(self.pending_serving_lease_round),
            published: self.published_serving_lease_expires_at,
            snapshot_proof: proof_view(self.pending_snapshot_proposal_identity),
            proposals: self.pending_proposals@.dom(),
        }
    }
}

impl NodeView {
    /// Only an elected leader is ready or has a barrier, and no index waits
    /// that is applied already.
    pub open spec fn wf(self) -> bool {
        &&& self.is_ready ==> self.is_leader && self.barrier is None
        &&& self.barrier is Some ==> self.is_leader
        &&& forall|i: u64| #[trigger]
            self.applied_ahead.contains(i) ==> i > self.durable_applied
    }

    /// The node without a round and without a published lease.
    pub open spec fn without_lease(self) -> NodeView {
        NodeView { round: None, published: None, ..self }
    }
}

/// A fresh node, restarted at its durably applied index.
pub open spec fn fresh_node(config: ConfigView, applied: u64) -> NodeView {
    NodeView {
        config,
        is_leader: false,
        is_ready: false,
        barrier: None,
        durable_applied: applied,
        applied_ahead: Set::empty(),
        rounds: 0,
        round: None,
        published: None,
        snapshot_proof: None,
        proposals: Set::empty(),
    }
}

/// `frontier` ends the run of applied indexes that starts after `from`.
pub open spec fn is_frontier(from: u64, applied: Set<u64>, frontier: u64) -> bool {
    &&& from <= frontier
    &&& forall|i: u64| from < i <= frontier ==> #[trigger] applied.contains(i)
    &&& frontier < u64::MAX ==> !applied.contains((frontier + 1) as u64)
}

/// A run of applied indexes has one end.
pub proof fn frontier_is_unique(from: u64, applied: Set<u64>, a: u64, b: u64)
    requires
        is_frontier(from, applied, a),
        is_frontier(from, applied, b),
    ensures
        a == b,
{
    if a < b {
        assert(applied.contains((a + 1) as u64));
    }
    if b < a {
        assert(applied.contains((b + 1) as u64));
    }
}

/// The indexes that are known to be applied once `index` is.
pub open spec fn applied_with(n: NodeView, index: u64) -> Set<u64> {
    n.applied_ahead.insert(index)
}

/// The node after `index` was applied, where `frontier` ends the run: the run
/// no longer waits, and is to be made durable.
pub open spec fn node_applied(n: NodeView, index: u64, frontier: u64) -> NodeView {
    if index <= n.durable_applied {
        n
    } else {
        NodeView {
            applied_ahead: applied_with(n, index).filter(|i: u64| i > frontier),
            ..n
        }
    }
}

/// The snapshot's proof at a commit frontier: the waiting proposals at or
/// below both.
pub open spec fn proof_at_frontier(
    n: NodeView,
    index: u64,
    term: u64,
    frontier: u64,
) -> ProofView {
    ProofView {
        snapshot_index: index,
        snapshot_term: term,
        committed: n.proposals.filter(|i: u64| i <= frontier && i <= index),
    }
}

/// The proof for a snapshot that is about to enter Raft.
///
/// Once an incoming snapshot has entered Raft, its index may become the
/// in-memory committed frontier. A replacement snapshot carries forward the
/// original proof rather than deriving new proof from that frontier.
pub open spec fn proof_before_step(
    n: NodeView,
    index: u64,
    term: u64,
    pending: Option<(u64, u64)>,
    committed: u64,
) -> ProofView {
    if pending is Some && n.snapshot_proof is Some && n.snapshot_proof->Some_0.is_about(
        pending->Some_0.0,
        pending->Some_0.1,
    ) {
        ProofView {
            snapshot_index: index,
            snapshot_term: term,
            committed: n.snapshot_proof->Some_0.committed.intersect(n.proposals).filter(
                |i: u64| i <= index,
            ),
        }
    } else {
        proof_at_frontier(n, index, term, committed)
    }
}

/// The proof that a snapshot is installed with. One that bypassed the mailbox
/// has none: its coverage alone cannot prove any local proposal committed.
pub open spec fn proof_for_install(n: NodeView, index: u64, term: u64) -> ProofView {
    if n.snapshot_proof is Some && n.snapshot_proof->Some_0.is_about(index, term) {
        n.snapshot_proof->Some_0
    } else {
        ProofView { snapshot_index: index, snapshot_term: term, committed: Set::empty() }
    }
}

/// A proof never names more than the waiting proposals that the snapshot
/// covers.
pub proof fn proof_names_covered_proposals(
    n: NodeView,
    index: u64,
    term: u64,
    pending: Option<(u64, u64)>,
    committed: u64,
    i: u64,
)
    requires
        proof_before_step(n, index, term, pending, committed).committed.contains(i),
    ensures
        i <= index,
        n.proposals.contains(i),
        proof_before_step(n, index, term, pending, committed).is_about(index, term),
        i <= committed || n.snapshot_proof->Some_0.committed.contains(i),
{
}

/// The proposals that a snapshot at `index` answers as committed.
pub open spec fn snapshot_committed(n: NodeView, proof_of: ProofView) -> Set<u64> {
    n.proposals.intersect(proof_of.committed)
}

/// The proposals that a snapshot at `index` answers as rejected: covered, but
/// without proof that the entry at their index is theirs.
pub open spec fn snapshot_rejected(n: NodeView, index: u64, proof_of: ProofView) -> Set<u64> {
    n.proposals.difference(proof_of.committed).filter(|i: u64| i <= index)
}

/// The proposals that a snapshot at `index` leaves waiting.
pub open spec fn snapshot_kept(n: NodeView, index: u64, proof_of: ProofView) -> Set<u64> {
    n.proposals.difference(proof_of.committed).filter(|i: u64| i > index)
}

/// A snapshot answers or keeps each proposal, and answers none as committed
/// without proof.
pub proof fn snapshot_answers_each_proposal_once(
    n: NodeView,
    index: u64,
    proof_of: ProofView,
    i: u64,
)
    requires
        n.proposals.contains(i),
    ensures
        snapshot_committed(n, proof_of).contains(i) || snapshot_rejected(n, index, proof_of).contains(
            i,
        ) || snapshot_kept(n, index, proof_of).contains(i),
        snapshot_committed(n, proof_of).contains(i) ==> proof_of.committed.contains(i)
            && !snapshot_rejected(n, index, proof_of).contains(i) && !snapshot_kept(
            n,
            index,
            proof_of,
        ).contains(i),
        !(snapshot_rejected(n, index, proof_of).contains(i) && snapshot_kept(
            n,
            index,
            proof_of,
        ).contains(i)),
        i <= index ==> !snapshot_kept(n, index, proof_of).contains(i),
{
}

/// The elected leader has caught up with its barrier.
pub open spec fn becomes_ready(n: NodeView, raft: RaftStatus) -> bool {
    &&& n.is_leader
    &&& !n.is_ready
    &&& n.barrier matches Some((term, index)) && raft.term == term && index <= raft.committed
        && index <= n.durable_applied
}

/// The node once it is ready.
pub open spec fn made_ready(n: NodeView) -> NodeView {
    NodeView { is_ready: true, barrier: None, ..n }
}

/// The node leads, was told so, and is ready.
pub open spec fn may_lease(n: NodeView, raft: RaftStatus) -> bool {
    raft.leads && n.is_leader && n.is_ready
}

/// A serving-lease round is due: none of this term is under way, and the
/// published lease ends within a heartbeat.
pub open spec fn round_is_due(n: NodeView, raft: RaftStatus, sent_at: u64) -> bool {
    &&& may_lease(n, raft)
    &&& !(n.round is Some && n.round->Some_0.term == raft.term)
    &&& n.published matches Some(published) ==> published <= sent_at + ticks(
        n.config.heartbeat_tick,
    )
    &&& sent_at + ticks(n.config.heartbeat_tick) <= u64::MAX
    &&& sent_at + n.config.lease_duration() <= u64::MAX
    &&& n.rounds < u64::MAX
}

/// The node after it looked whether to start a round at `sent_at`.
pub open spec fn after_round_check(n: NodeView, raft: RaftStatus, sent_at: u64) -> NodeView {
    if round_is_due(n, raft, sent_at) {
        NodeView {
            rounds: (n.rounds + 1) as u64,
            round: Some(
                RoundView {
                    term: raft.term,
                    context: lease_context(
                        n.config.node_id,
                        raft.term,
                        (n.rounds + 1) as u64,
                    ),
                    valid_until: (sent_at + n.config.lease_duration()) as u64,
                },
            ),
            ..n
        }
    } else if may_lease(n, raft) && n.round is Some && n.round->Some_0.term != raft.term {
        NodeView { round: None, ..n }
    } else {
        n
    }
}

/// The answers include that of the round under way.
pub open spec fn round_is_answered(n: NodeView, contexts: Seq<Seq<u8>>) -> bool {
    n.round is Some && contexts.contains(n.round->Some_0.context)
}

/// The answered round may mint a lease: this node still leads in the round's
/// term, is ready, and the deadline lies ahead, and further than the published
/// one.
pub open spec fn answer_mints_lease(n: NodeView, raft: RaftStatus, handled_at: u64) -> bool {
    &&& may_lease(n, raft)
    &&& raft.term == n.round->Some_0.term
    &&& handled_at < n.round->Some_0.valid_until
    &&& n.published matches Some(published) ==> published < n.round->Some_0.valid_until
}

/// The node after it handled the answers to read requests.
pub open spec fn after_read_states(
    n: NodeView,
    raft: RaftStatus,
    contexts: Seq<Seq<u8>>,
    handled_at: u64,
) -> NodeView {
    if !round_is_answered(n, contexts) {
        n
    } else if answer_mints_lease(n, raft, handled_at) {
        NodeView { round: None, published: Some(n.round->Some_0.valid_until), ..n }
    } else {
        NodeView { round: None, ..n }
    }
}

/// The deadline that handling the answers publishes.
pub open spec fn lease_from_read_states(
    n: NodeView,
    raft: RaftStatus,
    contexts: Seq<Seq<u8>>,
    handled_at: u64,
) -> Option<u64> {
    if round_is_answered(n, contexts) && answer_mints_lease(n, raft, handled_at) {
        Some(n.round->Some_0.valid_until)
    } else {
        None
    }
}

/// A published deadline was fixed when its round was sent: no later than the
/// lease duration after it, and never extended by a late answer.
pub proof fn lease_deadline_is_fixed_when_sent(
    n: NodeView,
    sent_raft: RaftStatus,
    sent_at: u64,
    raft: RaftStatus,
    contexts: Seq<Seq<u8>>,
    handled_at: u64,
)
    requires
        round_is_due(n, sent_raft, sent_at),
        lease_from_read_states(after_round_check(n, sent_raft, sent_at), raft, contexts, handled_at)
            is Some,
    ensures
        lease_from_read_states(after_round_check(n, sent_raft, sent_at), raft, contexts, handled_at)
            == Some((sent_at + n.config.lease_duration()) as u64),
        handled_at < sent_at + n.config.lease_duration(),
        raft.term == sent_raft.term,
        contexts.contains(
            lease_context(n.config.node_id, sent_raft.term, (n.rounds + 1) as u64),
        ),
{
}

/// A node that is no ready leader starts no round and publishes no lease.
pub proof fn only_a_ready_leader_leases(
    n: NodeView,
    raft: RaftStatus,
    at: u64,
    contexts: Seq<Seq<u8>>,
)
    requires
        !(raft.leads && n.is_leader && n.is_ready),
    ensures
        after_round_check(n, raft, at) == n,
        lease_from_read_states(n, raft, contexts, at) is None,
{
}

/// The answered proposals when leadership is revoked: applied ones are
/// committed, committed ones keep waiting for their ordered classification,
/// and the rest are rejected.
pub open spec fn revoke_committed(n: NodeView) -> Set<u64> {
    n.proposals.filter(|i: u64| i <= n.durable_applied)
}

pub open spec fn revoke_rejected(n: NodeView, committed: u64) -> Set<u64> {
    n.proposals.filter(|i: u64| i > n.durable_applied && i > committed)
}

pub open spec fn revoke_kept(n: NodeView, committed: u64) -> Set<u64> {
    n.proposals.filter(|i: u64| n.durable_applied < i <= committed)
}

/// The node once its application leadership is revoked.
pub open spec fn revoked(n: NodeView, committed: u64) -> NodeView {
    if n.is_leader {
        NodeView {
            is_leader: false,
            is_ready: false,
            barrier: None,
            round: None,
            published: None,
            proposals: revoke_kept(n, committed),
            ..n
        }
    } else {
        n
    }
}

/// Revocation answers or keeps each proposal, and rejects none that is known
/// to be committed.
pub proof fn revocation_answers_each_proposal_once(n: NodeView, committed: u64, i: u64)
    requires
        n.proposals.contains(i),
    ensures
        revoke_committed(n).contains(i) || revoke_kept(n, committed).contains(i)
            || revoke_rejected(n, committed).contains(i),
        revoke_rejected(n, committed).contains(i) ==> i > committed && i > n.durable_applied,
        revoke_committed(n).contains(i) ==> !revoke_kept(n, committed).contains(i)
            && !revoke_rejected(n, committed).contains(i),
        revoke_kept(n, committed).contains(i) ==> !revoke_rejected(n, committed).contains(i),
{
}

/// After revocation the node is no leader, is not ready and holds no lease.
pub proof fn revocation_ends_leadership(n: NodeView, committed: u64)
    requires
        n.wf(),
    ensures
        revoked(n, committed).wf(),
        !revoked(n, committed).is_leader,
        !revoked(n, committed).is_ready,
        n.is_leader ==> revoked(n, committed).round is None && revoked(n, committed).published
            is None,
{
}

/// The node after its membership changed at `now`: a leader's lease ends at
/// once, and is to be minted anew.
pub open spec fn lease_invalidated(n: NodeView, now: u64) -> NodeView {
    if n.is_leader {
        NodeView { round: None, published: Some(now), ..n }
    } else {
        n.without_lease()
    }
}

/// The node once it knows its group's voters: one that is not among them
/// leads no longer.
pub open spec fn leadership_reconciled(
    n: NodeView,
    voters: Seq<u64>,
    committed: u64,
) -> NodeView {
    if voters.contains(n.config.node_id) {
        n
    } else {
        revoked(n, committed)
    }
}

/// What follows from a change of membership at `now`.
pub open spec fn membership_changed(
    n: NodeView,
    voters: Seq<u64>,
    committed: u64,
    now: u64,
) -> NodeView {
    leadership_reconciled(lease_invalidated(n, now), voters, committed)
}

/// A member that is no longer a voter does not lead.
pub proof fn demoted_member_does_not_lead(
    n: NodeView,
    voters: Seq<u64>,
    committed: u64,
    now: u64,
)
    requires
        !voters.contains(n.config.node_id),
    ensures
        !membership_changed(n, voters, committed, now).is_leader,
        n.is_leader ==> membership_changed(n, voters, committed, now).published is None,
{
}

/// The node once a configuration entry at `index` is durably applied.
pub open spec fn configuration_applied_node(n: NodeView, index: u64) -> NodeView {
    NodeView {
        durable_applied: index,
        applied_ahead: n.applied_ahead.filter(|i: u64| i > index),
        ..n
    }
}

/// The node once a snapshot at `index` is installed.
pub open spec fn snapshot_installed_node(n: NodeView, index: u64, proof_of: ProofView) -> NodeView {
    NodeView {
        durable_applied: if n.durable_applied < index {
            index
        } else {
            n.durable_applied
        },
        applied_ahead: n.applied_ahead.filter(|i: u64| i > index),
        proposals: snapshot_kept(n, index, proof_of),
        snapshot_proof: None,
        ..n
    }
}

/// The node once the protocol reported its role.
pub open spec fn after_soft_state(n: NodeView, leads: bool, raft: RaftStatus) -> NodeView {
    if leads && !n.is_leader {
        NodeView {
            is_leader: true,
            is_ready: false,
            barrier: Some((raft.term, raft.last_index)),
            round: None,
            published: None,
            ..n
        }
    } else if !leads {
        revoked(n, raft.committed)
    } else {
        n
    }
}

/// A newly elected leader is not ready: it has to apply through its barrier in
/// this term first.
pub proof fn elected_leader_waits_for_its_barrier(n: NodeView, raft: RaftStatus, later: RaftStatus)
    requires
        !n.is_leader,
    ensures
        !after_soft_state(n, true, raft).is_ready,
        becomes_ready(after_soft_state(n, true, raft), later) ==> {
            &&& later.term == raft.term
            &&& raft.last_index <= later.committed
            &&& raft.last_index <= n.durable_applied
        },
{
}

/// Why an installed snapshot could not be accounted for.
#[derive(Clone, Copy, Debug, PartialEq, Eq, Structural)]
pub enum SnapshotError {
    ProofMismatch { proof_index: u64, proof_term: u64, index: u64, term: u64 },
    AppliedMismatch { index: u64, stored: u64 },
}

/// What follows from an installed snapshot.
#[derive(Clone, Debug)]
pub struct SnapshotFinished {
    /// The proposals that the snapshot answers.
    pub answered: Resolutions,
    /// The deadline to publish: the lease of a leader ends now.
    pub lease: Option<u64>,
    /// Leadership was lost, and these proposals got their answer by it.
    pub lost_leadership: Option<Resolutions>,
}

/// What follows from an applied configuration.
#[derive(Clone, Debug)]
pub struct ConfigurationFinished {
    pub lease: Option<u64>,
    pub lost_leadership: Option<Resolutions>,
}

/// What the change of role asks for.
#[derive(Clone, Debug)]
pub enum LeadershipChange {
    Unchanged,
    Became { term: u64 },
    Lost(Resolutions),
}

/// What happens with a committed entry.
#[derive(Clone, Copy, Debug, PartialEq, Eq, Structural)]
pub enum EntryClass {
    /// It changes the membership.
    Configuration,
    /// It carries nothing: it is applied at once.
    Empty,
    /// A local proposal waits at its index.
    Local,
    /// It goes through the state machine.
    Remote,
}

/// The kind of a log entry.
#[derive(Clone, Copy, Debug, PartialEq, Eq, Structural)]
pub enum EntryKind {
    Normal,
    ConfChange,
    ConfChangeV2,
}

/// What a committed entry is, before anybody is told.
pub open spec fn entry_class(
    n: NodeView,
    index: u64,
    kind: EntryKind,
    empty: bool,
) -> EntryClass {
    if kind != EntryKind::Normal {
        EntryClass::Configuration
    } else if empty {
        EntryClass::Empty
    } else if n.proposals.contains(index) {
        EntryClass::Local
    } else {
        EntryClass::Remote
    }
}

/// Whether the number is listed.
fn lists(list: &Vec<u64>, n: u64) -> (r: bool)
    ensures
        r == list@.contains(n),
{
    let mut i: usize = 0;
    while i < list.len()
        invariant
            i <= list@.len(),
            forall|k: int| 0 <= k < i ==> list@[k] != n,
        decreases list@.len() - i,
    {
        if list[i] == n {
            return true;
        }
        i = i + 1;
    }
    false
}

/// The contexts of a list of them.
pub open spec fn context_views(contexts: Seq<Vec<u8>>) -> Seq<Seq<u8>> {
    Seq::new(contexts.len(), |i: int| contexts[i]@)
}

impl RaftNode {
    pub closed spec fn wf(&self) -> bool {
        &&& self.applied_indexes_pending_persistence.wf()
        &&& self.pending_proposals.wf()
        &&& self.pending_snapshot_proposal_identity matches Some(identity) ==> identity.wf()
        &&& self@.wf()
    }

    /// What the node stands for is well formed.
    pub proof fn view_is_wf(&self)
        requires
            self.wf(),
        ensures
            self@.wf(),
    {
    }

    /// A node whose state machine has durably applied through `applied`.
    pub fn new(config: RaftNodeConfig, applied: u64) -> (r: Self)
        ensures
            r.wf(),
            r@ == fresh_node(config@, applied),
    {
        let r = RaftNode {
            config,
            is_leader_flag: false,
            is_leader_ready_flag: false,
            leader_readiness_barrier: None,
            durable_applied_index: applied,
            applied_indexes_pending_persistence: SortedMap::new(),
            next_serving_lease_round_nonce: 0,
            pending_serving_lease_round: None,
            published_serving_lease_expires_at: None,
            pending_snapshot_proposal_identity: None,
            pending_proposals: SortedMap::new(),
        };
        proof {
            assert(r@.applied_ahead =~= Set::<u64>::empty());
            assert(r@.proposals =~= Set::<u64>::empty());
        }
        r
    }

    /// Records that the entry at `index` is applied. What comes back is the
    /// index to make durable, where the run of applied entries has grown;
    /// [`RaftNode::applied_index_persisted`] follows once it is.
    pub fn record_applied_index(&mut self, index: u64) -> (r: Option<u64>)
        requires
            old(self).wf(),
        ensures
            final(self).wf(),
            index <= old(self)@.durable_applied ==> r is None && final(self)@ == old(self)@,
            index > old(self)@.durable_applied ==> {
                let frontier = match r {
                    Some(frontier) => frontier,
                    None => old(self)@.durable_applied,
                };
                &&& is_frontier(
                    old(self)@.durable_applied,
                    applied_with(old(self)@, index),
                    frontier,
                )
                &&& r is Some <==> frontier > old(self)@.durable_applied
                &&& final(self)@ == node_applied(old(self)@, index, frontier)
            },
    {
        if index <= self.durable_applied_index {
            return None;
        }
        let ghost applied = applied_with(self@, index);
        let ghost start = self@;
        self.applied_indexes_pending_persistence.insert(index, ());
        proof {
            assert(self@.applied_ahead =~= applied);
            assert(self@.applied_ahead =~= applied.filter(|i: u64| i > self.durable_applied_index))
                by {
                assert forall|i: u64| applied.contains(i) implies i
                    > self.durable_applied_index by {}
            }
        }
        let mut next: u64 = self.durable_applied_index;
        while next < u64::MAX && self.applied_indexes_pending_persistence.contains_key(&(next + 1))
            invariant
                self.applied_indexes_pending_persistence.wf(),
                self.pending_proposals.wf(),
                self.pending_snapshot_proposal_identity matches Some(identity) ==> identity.wf(),
                start == old(self)@,
                start.wf(),
                index > start.durable_applied,
                applied == applied_with(start, index),
                self@ == (NodeView {
                    applied_ahead: applied.filter(|i: u64| i > next),
                    ..start
                }),
                start.durable_applied <= next,
                forall|i: u64| start.durable_applied < i <= next ==> #[trigger] applied.contains(i),
            decreases u64::MAX - next,
        {
            self.applied_indexes_pending_persistence.remove(&(next + 1));
            proof {
                assert(applied.contains((next + 1) as u64));
                assert(self@.applied_ahead =~= applied.filter(|i: u64| i > next + 1));
                assert(applied.filter(|i: u64| i > next + 1) =~= applied.filter(
                    |i: u64| i > (next + 1) as u64,
                ));
            }
            next = next + 1;
        }
        proof {
            if next < u64::MAX {
                assert(!self@.applied_ahead.contains((next + 1) as u64));
                assert(!applied.contains((next + 1) as u64));
            }
        }
        if next > self.durable_applied_index {
            Some(next)
        } else {
            None
        }
    }

    /// The applied index that was handed out is durable.
    pub fn applied_index_persisted(&mut self, index: u64)
        requires
            old(self).wf(),
            old(self)@.durable_applied <= index,
            forall|i: u64| #[trigger] old(self)@.applied_ahead.contains(i) ==> i > index,
        ensures
            final(self).wf(),
            final(self)@ == (NodeView { durable_applied: index, ..old(self)@ }),
    {
        self.durable_applied_index = index;
    }

    /// The proof for a snapshot at a commit frontier.
    pub fn snapshot_proposal_identity_at_frontier(
        &self,
        index: u64,
        term: u64,
        local_committed_frontier: u64,
    ) -> (r: SnapshotProposalIdentity)
        requires
            self.wf(),
        ensures
            r.wf(),
            r@ == proof_at_frontier(self@, index, term, local_committed_frontier),
    {
        let high: u64 = if local_committed_frontier < index {
            local_committed_frontier
        } else {
            index
        };
        let (committed, rest) = ordered::split_indexes(&self.pending_proposals, 0, high);
        proof {
            assert(committed@.dom() =~= proof_at_frontier(
                self@,
                index,
                term,
                local_committed_frontier,
            ).committed);
        }
        SnapshotProposalIdentity {
            snapshot_index: index,
            snapshot_term: term,
            locally_committed_proposal_indexes: committed,
        }
    }

    /// The proof for a snapshot that is about to enter Raft, while the
    /// snapshot `pending` (if any) is already in it.
    pub fn snapshot_proposal_identity_before_step(
        &self,
        index: u64,
        term: u64,
        pending: Option<(u64, u64)>,
        committed: u64,
    ) -> (r: SnapshotProposalIdentity)
        requires
            self.wf(),
        ensures
            r.wf(),
            r@ == proof_before_step(self@, index, term, pending, committed),
    {
        if let Some((pending_index, pending_term)) = pending {
            if let Some(identity) = &self.pending_snapshot_proposal_identity {
                if identity.matches(pending_index, pending_term) {
                    let (waiting, gone) = ordered::split_by(
                        &identity.locally_committed_proposal_indexes,
                        &self.pending_proposals,
                    );
                    let (carried, above) = ordered::split_indexes(&waiting, 0, index);
                    proof {
                        assert(carried@.dom() =~= proof_before_step(
                            self@,
                            index,
                            term,
                            pending,
                            committed,
                        ).committed);
                    }
                    return SnapshotProposalIdentity {
                        snapshot_index: index,
                        snapshot_term: term,
                        locally_committed_proposal_indexes: carried,
                    };
                }
            }
        }
        self.snapshot_proposal_identity_at_frontier(index, term, committed)
    }

    /// The proof that a snapshot is installed with.
    pub fn snapshot_proposal_identity_for_install(&self, index: u64, term: u64) -> (r:
        SnapshotProposalIdentity)
        requires
            self.wf(),
        ensures
            r.wf(),
            r@ == proof_for_install(self@, index, term),
    {
        if let Some(identity) = &self.pending_snapshot_proposal_identity {
            if identity.matches(index, term) {
                return identity.duplicate();
            }
        }
        let empty: IndexSet = SortedMap::new();
        proof {
            assert(empty@.dom() =~= Set::<u64>::empty());
        }
        SnapshotProposalIdentity {
            snapshot_index: index,
            snapshot_term: term,
            locally_committed_proposal_indexes: empty,
        }
    }

    /// Keeps the proof of a snapshot message that the protocol took: `pending`
    /// is the snapshot that is in Raft after the step. A stale snapshot is
    /// legitimately ignored, and leaves no proof.
    pub fn snapshot_message_stepped(
        &mut self,
        identity: SnapshotProposalIdentity,
        pending: Option<(u64, u64)>,
    )
        requires
            old(self).wf(),
            identity.wf(),
        ensures
            final(self).wf(),
            final(self)@ == (if pending is Some && identity@.is_about(
                pending->Some_0.0,
                pending->Some_0.1,
            ) {
                NodeView { snapshot_proof: Some(identity@), ..old(self)@ }
            } else {
                old(self)@
            }),
    {
        if let Some((index, term)) = pending {
            if identity.matches(index, term) {
                self.pending_snapshot_proposal_identity = Some(identity);
            }
        }
    }

    /// Answers the proposals that a snapshot decides.
    pub fn reconcile_snapshot_proposals(
        &mut self,
        snapshot_index: u64,
        identity: &SnapshotProposalIdentity,
    ) -> (r: Resolutions)
        requires
            old(self).wf(),
            identity.wf(),
        ensures
            final(self).wf(),
            final(self)@ == (NodeView {
                proposals: snapshot_kept(old(self)@, snapshot_index, identity@),
                ..old(self)@
            }),
            r.wf(),
            r.committed@.dom() == snapshot_committed(old(self)@, identity@),
            r.rejected@.dom() == snapshot_rejected(old(self)@, snapshot_index, identity@),
    {
        let (committed, others) = ordered::split_by(
            &self.pending_proposals,
            &identity.locally_committed_proposal_indexes,
        );
        let (rejected, kept) = ordered::split_indexes(&others, 0, snapshot_index);
        proof {
            assert(rejected@.dom() =~= snapshot_rejected(self@, snapshot_index, identity@));
            assert(kept@.dom() =~= snapshot_kept(self@, snapshot_index, identity@));
        }
        self.pending_proposals = kept;
        Resolutions { committed, rejected }
    }

    /// Accounts for a snapshot that is installed and durable. `stored` is the
    /// applied index that storage reports.
    pub fn finish_snapshot_application(
        &mut self,
        snapshot: &SnapshotMetadata,
        identity: &SnapshotProposalIdentity,
        stored: u64,
        committed: u64,
        applied_at: u64,
    ) -> (r: Result<SnapshotFinished, SnapshotError>)
        requires
            old(self).wf(),
            identity.wf(),
        ensures
            final(self).wf(),
            match r {
                Err(SnapshotError::ProofMismatch { proof_index, proof_term, index, term }) => {
                    &&& !identity@.is_about(snapshot.index, snapshot.term)
                    &&& proof_index == identity@.snapshot_index
                    &&& proof_term == identity@.snapshot_term
                    &&& index == snapshot.index
                    &&& term == snapshot.term
                    &&& final(self)@ == old(self)@
                },
                Err(SnapshotError::AppliedMismatch { index, stored: found }) => {
                    &&& identity@.is_about(snapshot.index, snapshot.term)
                    &&& stored != snapshot.index
                    &&& index == snapshot.index
                    &&& found == stored
                    &&& final(self)@ == old(self)@
                },
                Ok(finished) => {
                    let n = old(self)@;
                    let installed = snapshot_installed_node(n, snapshot.index, identity@);
                    let voter = snapshot.voters@.contains(n.config.node_id);
                    &&& identity@.is_about(snapshot.index, snapshot.term)
                    &&& stored == snapshot.index
                    &&& final(self)@ == membership_changed(
                        installed,
                        snapshot.voters@,
                        committed,
                        applied_at,
                    )
                    &&& finished.answered.wf()
                    &&& finished.answered.committed@.dom() == snapshot_committed(n, identity@)
                    &&& finished.answered.rejected@.dom() == snapshot_rejected(
                        n,
                        snapshot.index,
                        identity@,
                    )
                    &&& finished.lease == (if n.is_leader {
                        Some(applied_at)
                    } else {
                        None
                    })
                    &&& finished.lost_leadership is Some <==> !voter && n.is_leader
                    &&& finished.lost_leadership matches Some(lost) ==> {
                        &&& lost.wf()
                        &&& lost.committed@.dom() == revoke_committed(installed)
                        &&& lost.rejected@.dom() == revoke_rejected(installed, committed)
                    }
                },
            },
    {
        if !identity.matches(snapshot.index, snapshot.term) {
            return Err(
                SnapshotError::ProofMismatch {
                    proof_index: identity.snapshot_index,
                    proof_term: identity.snapshot_term,
                    index: snapshot.index,
                    term: snapshot.term,
                },
            );
        }
        if stored != snapshot.index {
            return Err(SnapshotError::AppliedMismatch { index: snapshot.index, stored });
        }
        let ghost n = self@;
        self.record_snapshot_applied_index(snapshot.index);
        let answered = self.reconcile_snapshot_proposals(snapshot.index, identity);
        self.pending_snapshot_proposal_identity = None;
        let ghost installed = snapshot_installed_node(n, snapshot.index, identity@);
        proof {
            assert(self@.proposals =~= installed.proposals);
            assert(self@ == installed);
        }
        let lease = self.invalidate_leader_serving_lease_for_configuration_change(applied_at);
        let ghost invalidated = self@;
        let lost_leadership = self.reconcile_application_leadership(&snapshot.voters, committed);
        proof {
            assert(revoke_committed(invalidated) =~= revoke_committed(installed));
            assert(revoke_rejected(invalidated, committed) =~= revoke_rejected(
                installed,
                committed,
            ));
        }
        Ok(SnapshotFinished { answered, lease, lost_leadership })
    }

    /// Moves the applied index to that of an installed snapshot.
    fn record_snapshot_applied_index(&mut self, index: u64)
        requires
            old(self).wf(),
        ensures
            final(self).wf(),
            final(self)@ == (NodeView {
                durable_applied: if old(self)@.durable_applied < index {
                    index
                } else {
                    old(self)@.durable_applied
                },
                applied_ahead: old(self)@.applied_ahead.filter(|i: u64| i > index),
                ..old(self)@
            }),
    {
        if self.durable_applied_index < index {
            self.durable_applied_index = index;
        }
        self.drop_applied_through(index);
    }

    /// Forgets the waiting applied indexes up to `index`.
    fn drop_applied_through(&mut self, index: u64)
        requires
            old(self).applied_indexes_pending_persistence.wf(),
            old(self).pending_proposals.wf(),
            old(self).pending_snapshot_proposal_identity matches Some(identity) ==> identity.wf(),
        ensures
            final(self).applied_indexes_pending_persistence.wf(),
            final(self).pending_proposals.wf(),
            final(self).pending_snapshot_proposal_identity matches Some(identity)
                ==> identity.wf(),
            final(self)@ == (NodeView {
                applied_ahead: old(self)@.applied_ahead.filter(|i: u64| i > index),
                ..old(self)@
            }),
    {
        let (below, above) = ordered::split_indexes(
            &self.applied_indexes_pending_persistence,
            0,
            index,
        );
        proof {
            assert(above@.dom() =~= self@.applied_ahead.filter(|i: u64| i > index));
        }
        self.applied_indexes_pending_persistence = above;
    }

    /// Marks the leader ready once it has applied through its barrier; the
    /// context of the first serving-lease round comes along, if one is due.
    pub fn maybe_mark_leader_ready(&mut self, raft: RaftStatus, now: u64) -> (r: (
        bool,
        Option<Vec<u8>>,
    ))
        requires
            old(self).wf(),
        ensures
            final(self).wf(),
            r.0 == becomes_ready(old(self)@, raft),
            !r.0 ==> r.1 is None && final(self)@ == old(self)@,
            r.0 ==> {
                let ready = made_ready(old(self)@);
                &&& final(self)@ == after_round_check(ready, raft, now)
                &&& r.1 is Some <==> round_is_due(ready, raft, now)
                &&& r.1 matches Some(context) ==> context@ == lease_context(
                    ready.config.node_id,
                    raft.term,
                    (ready.rounds + 1) as u64,
                )
            },
    {
        if !self.is_leader_flag || self.is_leader_ready_flag {
            return (false, None);
        }
        let (barrier_term, barrier_index) = match self.leader_readiness_barrier {
            Some(barrier) => barrier,
            None => {
                return (false, None);
            },
        };
        if raft.term != barrier_term || raft.committed < barrier_index || self.durable_applied_index
            < barrier_index {
            return (false, None);
        }
        self.is_leader_ready_flag = true;
        self.leader_readiness_barrier = None;
        proof {
            assert(self@ == made_ready(old(self)@));
        }
        let context = self.maybe_start_leader_serving_lease_round(raft, now);
        (true, context)
    }

    /// Forgets the round under way and the published lease.
    fn reset_leader_serving_lease_round(&mut self)
        requires
            old(self).wf(),
        ensures
            final(self).wf(),
            final(self)@ == old(self)@.without_lease(),
    {
        self.pending_serving_lease_round = None;
        self.published_serving_lease_expires_at = None;
    }

    /// Ends the lease at `now` because the membership changed; the deadline
    /// to publish comes back.
    pub fn invalidate_leader_serving_lease_for_configuration_change(&mut self, now: u64) -> (r:
        Option<u64>)
        requires
            old(self).wf(),
        ensures
            final(self).wf(),
            final(self)@ == lease_invalidated(old(self)@, now),
            r == (if old(self)@.is_leader {
                Some(now)
            } else {
                None
            }),
    {
        self.reset_leader_serving_lease_round();
        if !self.is_leader_flag {
            return None;
        }
        self.published_serving_lease_expires_at = Some(now);
        Some(now)
    }

    /// Starts a serving-lease round where one is due; the context of the read
    /// request to send comes back.
    pub fn maybe_start_leader_serving_lease_round(
        &mut self,
        raft: RaftStatus,
        sent_at: u64,
    ) -> (r: Option<Vec<u8>>)
        requires
            old(self).wf(),
        ensures
            final(self).wf(),
            final(self)@ == after_round_check(old(self)@, raft, sent_at),
            r is Some <==> round_is_due(old(self)@, raft, sent_at),
            r matches Some(context) ==> context@ == lease_context(
                old(self)@.config.node_id,
                raft.term,
                (old(self)@.rounds + 1) as u64,
            ),
    {
        if !raft.leads || !self.is_leader_flag || !self.is_leader_ready_flag {
            return None;
        }
        if let Some(round) = &self.pending_serving_lease_round {
            if round.term == raft.term {
                // Even an expired round stays correlated until its answer
                // arrives: heartbeats go on carrying its context.
                return None;
            }
        }
        self.pending_serving_lease_round = None;
        let renew_by: u64 = match sent_at.checked_add(tick_time(self.config.heartbeat_tick)) {
            Some(renew_by) => renew_by,
            None => {
                return None;
            },
        };
        if let Some(published) = self.published_serving_lease_expires_at {
            if published > renew_by {
                return None;
            }
        }
        let nonce: u64 = match self.next_serving_lease_round_nonce.checked_add(1) {
            Some(nonce) => nonce,
            None => {
                return None;
            },
        };
        let duration: u64 = self.config.leader_serving_lease_duration();
        let valid_until: u64 = match sent_at.checked_add(duration) {
            Some(valid_until) => valid_until,
            None => {
                return None;
            },
        };
        self.next_serving_lease_round_nonce = nonce;
        let context = serving_lease_read_index_context(self.config.node_id, raft.term, nonce);
        let kept = context.clone();
        assert(kept@ =~= context@);
        self.pending_serving_lease_round = Some(
            ServingLeaseRound { term: raft.term, context: kept, valid_until },
        );
        Some(context)
    }

    /// Handles the answers to read requests; the deadline to publish comes
    /// back, if the round under way is among them and may mint a lease.
    pub fn process_leader_serving_lease_read_states(
        &mut self,
        raft: RaftStatus,
        contexts: &Vec<Vec<u8>>,
        handled_at: u64,
    ) -> (r: Option<u64>)
        requires
            old(self).wf(),
        ensures
            final(self).wf(),
            final(self)@ == after_read_states(
                old(self)@,
                raft,
                context_views(contexts@),
                handled_at,
            ),
            r == lease_from_read_states(
                old(self)@,
                raft,
                context_views(contexts@),
                handled_at,
            ),
    {
        let answered = match &self.pending_serving_lease_round {
            Some(round) => lists_context(contexts, &round.context),
            None => false,
        };
        if !answered {
            return None;
        }
        let round = match self.pending_serving_lease_round.take() {
            Some(round) => round,
            None => {
                return None;
            },
        };
        if !raft.leads || !self.is_leader_flag || !self.is_leader_ready_flag || raft.term
            != round.term || handled_at >= round.valid_until {
            return None;
        }
        let further = match self.published_serving_lease_expires_at {
            Some(published) => round.valid_until > published,
            None => true,
        };
        if further {
            self.published_serving_lease_expires_at = Some(round.valid_until);
            Some(round.valid_until)
        } else {
            None
        }
    }

    /// Revokes the application's leadership; where there was one, the answers
    /// owed to waiting proposals come back.
    pub fn revoke_application_leadership(&mut self, committed: u64) -> (r: Option<Resolutions>)
        requires
            old(self).wf(),
        ensures
            final(self).wf(),
            final(self)@ == revoked(old(self)@, committed),
            r is Some <==> old(self)@.is_leader,
            r matches Some(lost) ==> {
                &&& lost.wf()
                &&& lost.committed@.dom() == revoke_committed(old(self)@)
                &&& lost.rejected@.dom() == revoke_rejected(old(self)@, committed)
            },
    {
        if !self.is_leader_flag {
            return None;
        }
        self.is_leader_flag = false;
        self.is_leader_ready_flag = false;
        self.leader_readiness_barrier = None;
        self.reset_leader_serving_lease_round();
        let applied: u64 = self.durable_applied_index;
        let (done, waiting) = ordered::split_indexes(&self.pending_proposals, 0, applied);
        let (kept, rejected) = ordered::split_indexes(&waiting, 0, committed);
        proof {
            assert(done@.dom() =~= revoke_committed(old(self)@));
            assert(kept@.dom() =~= revoke_kept(old(self)@, committed));
            assert(rejected@.dom() =~= revoke_rejected(old(self)@, committed));
        }
        self.pending_proposals = kept;
        Some(Resolutions { committed: done, rejected })
    }

    /// Revokes leadership where this node is no voter.
    pub fn reconcile_application_leadership(
        &mut self,
        voters: &Vec<u64>,
        committed: u64,
    ) -> (r: Option<Resolutions>)
        requires
            old(self).wf(),
        ensures
            final(self).wf(),
            final(self)@ == leadership_reconciled(old(self)@, voters@, committed),
            r is Some <==> old(self)@.is_leader && !voters@.contains(
                old(self)@.config.node_id,
            ),
            r matches Some(lost) ==> {
                &&& lost.wf()
                &&& lost.committed@.dom() == revoke_committed(old(self)@)
                &&& lost.rejected@.dom() == revoke_rejected(old(self)@, committed)
            },
    {
        if lists(voters, self.config.node_id) {
            None
        } else {
            self.revoke_application_leadership(committed)
        }
    }

    /// Whether a configuration entry at `index` is the next one to apply; the
    /// durably applied index comes back where it is not.
    pub fn check_configuration_order(&self, index: u64) -> (r: Result<(), u64>)
        ensures
            match r {
                Ok(_) => index == self@.durable_applied + 1,
                Err(applied) => index != self@.durable_applied + 1 && applied
                    == self@.durable_applied,
            },
    {
        if self.durable_applied_index < u64::MAX && index == self.durable_applied_index + 1 {
            Ok(())
        } else {
            Err(self.durable_applied_index)
        }
    }

    /// Accounts for a configuration entry that is applied and durable, with
    /// the voters that it leaves.
    pub fn configuration_applied(
        &mut self,
        index: u64,
        voters: &Vec<u64>,
        committed: u64,
        now: u64,
    ) -> (r: ConfigurationFinished)
        requires
            old(self).wf(),
            index == old(self)@.durable_applied + 1,
        ensures
            final(self).wf(),
            ({
                let n = old(self)@;
                let applied = configuration_applied_node(n, index);
                let voter = voters@.contains(n.config.node_id);
                &&& final(self)@ == membership_changed(applied, voters@, committed, now)
                &&& r.lease == (if n.is_leader {
                    Some(now)
                } else {
                    None
                })
                &&& r.lost_leadership is Some <==> !voter && n.is_leader
                &&& r.lost_leadership matches Some(lost) ==> {
                    &&& lost.wf()
                    &&& lost.committed@.dom() == revoke_committed(applied)
                    &&& lost.rejected@.dom() == revoke_rejected(applied, committed)
                }
            }),
    {
        let ghost n = self@;
        self.durable_applied_index = index;
        self.drop_applied_through(index);
        let ghost applied = configuration_applied_node(n, index);
        let lease = self.invalidate_leader_serving_lease_for_configuration_change(now);
        let ghost invalidated = self@;
        let lost_leadership = self.reconcile_application_leadership(voters, committed);
        proof {
            assert(revoke_committed(invalidated) =~= revoke_committed(applied));
            assert(revoke_rejected(invalidated, committed) =~= revoke_rejected(
                applied,
                committed,
            ));
        }
        ConfigurationFinished { lease, lost_leadership }
    }

    /// What a committed entry is. A local proposal at its index is taken off
    /// the waiting ones: its client is to be told that it committed.
    pub fn classify_committed_entry(
        &mut self,
        index: u64,
        kind: EntryKind,
        empty: bool,
    ) -> (r: EntryClass)
        requires
            old(self).wf(),
        ensures
            final(self).wf(),
            r == entry_class(old(self)@, index, kind, empty),
            final(self)@ == (if r == EntryClass::Local {
                NodeView { proposals: old(self)@.proposals.remove(index), ..old(self)@ }
            } else {
                old(self)@
            }),
    {
        if kind != EntryKind::Normal {
            return EntryClass::Configuration;
        }
        if empty {
            return EntryClass::Empty;
        }
        if self.pending_proposals.contains_key(&index) {
            self.pending_proposals.remove(&index);
            proof {
                assert(self@.proposals =~= old(self)@.proposals.remove(index));
            }
            return EntryClass::Local;
        }
        EntryClass::Remote
    }

    /// Follows the role that the protocol reports.
    pub fn soft_state_changed(&mut self, leads: bool, raft: RaftStatus) -> (r: LeadershipChange)
        requires
            old(self).wf(),
        ensures
            final(self).wf(),
            final(self)@ == after_soft_state(old(self)@, leads, raft),
            match r {
                LeadershipChange::Unchanged => leads == old(self)@.is_leader,
                LeadershipChange::Became { term } => leads && !old(self)@.is_leader && term
                    == raft.term,
                LeadershipChange::Lost(lost) => {
                    &&& !leads
                    &&& old(self)@.is_leader
                    &&& lost.wf()
                    &&& lost.committed@.dom() == revoke_committed(old(self)@)
                    &&& lost.rejected@.dom() == revoke_rejected(old(self)@, raft.committed)
                },
            },
    {
        if leads && !self.is_leader_flag {
            self.is_leader_flag = true;
            self.is_leader_ready_flag = false;
            self.leader_readiness_barrier = Some((raft.term, raft.last_index));
            self.reset_leader_serving_lease_round();
            LeadershipChange::Became { term: raft.term }
        } else if !leads {
            match self.revoke_application_leadership(raft.committed) {
                Some(lost) => LeadershipChange::Lost(lost),
                None => LeadershipChange::Unchanged,
            }
        } else {
            LeadershipChange::Unchanged
        }
    }

    /// The log index that a client's proposal would get; a node that does not
    /// lead, or is not ready, takes none.
    pub fn proposal_index(&self, raft: RaftStatus) -> (r: Option<u64>)
        requires
            raft.last_index < u64::MAX,
        ensures
            r == (if raft.leads && self@.is_ready {
                Some((raft.last_index + 1) as u64)
            } else {
                None
            }),
    {
        if raft.leads && self.is_leader_ready_flag {
            Some(raft.last_index + 1)
        } else {
            None
        }
    }

    /// The protocol took the proposal at `index`: its client waits.
    pub fn proposal_accepted(&mut self, index: u64)
        requires
            old(self).wf(),
        ensures
            final(self).wf(),
            final(self)@ == (NodeView {
                proposals: old(self)@.proposals.insert(index),
                ..old(self)@
            }),
    {
        self.pending_proposals.insert(index, ());
        proof {
            assert(self@.proposals =~= old(self)@.proposals.insert(index));
        }
    }

    /// The indexes at which clients wait, in increasing order.
    pub fn waiting_proposals(&self) -> (r: Vec<u64>)
        requires
            self.wf(),
        ensures
            forall|i: int, j: int| 0 <= i < j < r@.len() ==> r@[i] < r@[j],
            forall|n: u64| self@.proposals.contains(n) <==> r@.contains(n),
    {
        ordered::indexes_of(&self.pending_proposals)
    }

    /// Check if this node is the current Raft leader.
    pub fn is_leader(&self) -> (r: bool)
        ensures
            r == self@.is_leader,
    {
        self.is_leader_flag
    }

    /// Check whether this elected leader has durably applied through its
    /// current-term barrier and may accept application work.
    pub fn is_leader_ready(&self) -> (r: bool)
        ensures
            r == (self@.is_leader && self@.is_ready),
    {
        self.is_leader_flag && self.is_leader_ready_flag
    }

    /// Get this node's ID.
    pub fn node_id(&self) -> (r: u64)
        ensures
            r == self@.config.node_id,
    {
        self.config.node_id
    }

    /// Get the partition this node manages.
    pub fn partition_id(&self) -> (r: PartitionId)
        ensures
            r == self@.config.partition_id,
    {
        self.config.partition_id
    }

    /// The highest index durably applied to the local state machine.
    pub fn durable_applied_index(&self) -> (r: u64)
        ensures
            r == self@.durable_applied,
    {
        self.durable_applied_index
    }

    /// The last deadline told to the application.
    pub fn published_serving_lease_expires_at(&self) -> (r: Option<u64>)
        ensures
            r == self@.published,
    {
        self.published_serving_lease_expires_at
    }

    /// The round under way.
    pub fn pending_serving_lease_round(&self) -> (r: Option<&ServingLeaseRound>)
        ensures
            match r {
                Some(round) => self@.round == Some(round@),
                None => self@.round is None,
            },
    {
        self.pending_serving_lease_round.as_ref()
    }
}

/// Whether the context is listed.
fn lists_context(contexts: &Vec<Vec<u8>>, context: &Vec<u8>) -> (r: bool)
    ensures
        r == context_views(contexts@).contains(context@),
{
    let mut i: usize = 0;
    while i < contexts.len()
        invariant
            i <= contexts@.len(),
            forall|k: int| 0 <= k < i ==> (#[trigger] contexts@[k])@ != context@,
        decreases contexts@.len() - i,
    {
        if crate::invalidation::same_bytes(&contexts[i], context) {
            assert(context_views(contexts@)[i as int] == context@);
            return true;
        }
        i = i + 1;
    }
    proof {
        if context_views(contexts@).contains(context@) {
            let k = context_views(contexts@).index_of(context@);
            assert(contexts@[k]@ == context@);
        }
    }
    false
}

/// The replication state of one voter, as the leader sees it.
#[derive(Clone, Copy, Debug, PartialEq, Eq, Structural)]
pub struct VoterProgress {
    pub id: u64,
    /// The leader follows this voter's log.
    pub followed: bool,
    /// The highest index known to be replicated to it.
    pub matched: u64,
    pub recent_active: bool,
}

/// The health of a group's replication.
#[derive(Clone, Copy, Debug, PartialEq, Eq, Structural)]
pub struct ReplicationHealth {
    pub configured_voters: usize,
    pub recent_active_voters: usize,
    pub lagging_followers: usize,
    pub max_follower_lag_entries: u64,
    pub total_follower_lag_entries: u64,
}

/// How many committed entries a voter lacks; the leader itself and a voter it
/// does not follow lack none.
pub open spec fn voter_lag(v: VoterProgress, node_id: u64, committed: u64) -> nat {
    if v.id == node_id || !v.followed || committed <= v.matched {
        0
    } else {
        (committed - v.matched) as nat
    }
}

/// The voter was heard of recently, or is the leader itself.
pub open spec fn voter_active(v: VoterProgress, node_id: u64) -> bool {
    v.id == node_id || (v.followed && v.recent_active)
}

/// The number of voters heard of recently.
pub open spec fn active_voters(voters: Seq<VoterProgress>, node_id: u64) -> nat {
    voters.filter(|v: VoterProgress| voter_active(v, node_id)).len()
}

/// The number of voters that lag.
pub open spec fn lagging_voters(
    voters: Seq<VoterProgress>,
    node_id: u64,
    committed: u64,
) -> nat {
    voters.filter(|v: VoterProgress| voter_lag(v, node_id, committed) > 0).len()
}

/// The lag of all voters together.
pub open spec fn total_lag(voters: Seq<VoterProgress>, node_id: u64, committed: u64) -> nat
    decreases voters.len(),
{
    if voters.len() == 0 {
        0
    } else {
        total_lag(voters.drop_last(), node_id, committed) + voter_lag(
            voters.last(),
            node_id,
            committed,
        )
    }
}

/// `lag` is the longest lag of a voter.
pub open spec fn is_max_lag(
    voters: Seq<VoterProgress>,
    node_id: u64,
    committed: u64,
    lag: nat,
) -> bool {
    &&& forall|i: int|
        0 <= i < voters.len() ==> voter_lag(#[trigger] voters[i], node_id, committed) <= lag
    &&& lag == 0 || exists|i: int|
        0 <= i < voters.len() && voter_lag(#[trigger] voters[i], node_id, committed) == lag
}

/// Sums up the replication state that a leader sees.
pub fn replication_health(
    voters: &Vec<VoterProgress>,
    node_id: u64,
    committed: u64,
) -> (r: ReplicationHealth)
    ensures
        r.configured_voters == voters@.len(),
        r.recent_active_voters == active_voters(voters@, node_id),
        r.lagging_followers == lagging_voters(voters@, node_id, committed),
        is_max_lag(voters@, node_id, committed, r.max_follower_lag_entries as nat),
        r.total_follower_lag_entries == (if total_lag(voters@, node_id, committed) <= u64::MAX {
            total_lag(voters@, node_id, committed)
        } else {
            u64::MAX as nat
        }),
{
    let ghost active = |v: VoterProgress| voter_active(v, node_id);
    let ghost lags = |v: VoterProgress| voter_lag(v, node_id, committed) > 0;
    let mut recent_active_voters: usize = 0;
    let mut lagging_followers: usize = 0;
    let mut max_lag: u64 = 0;
    let mut total: u64 = 0;
    let mut i: usize = 0;
    proof {
        assert(voters@.take(0) =~= Seq::<VoterProgress>::empty());
        reveal(Seq::filter);
    }
    while i < voters.len()
        invariant
            i <= voters@.len(),
            active == (|v: VoterProgress| voter_active(v, node_id)),
            lags == (|v: VoterProgress| voter_lag(v, node_id, committed) > 0),
            recent_active_voters == voters@.take(i as int).filter(active).len(),
            lagging_followers == voters@.take(i as int).filter(lags).len(),
            recent_active_voters <= i,
            lagging_followers <= i,
            forall|k: int|
                0 <= k < i ==> voter_lag(#[trigger] voters@[k], node_id, committed) <= max_lag,
            max_lag == 0 || exists|k: int|
                0 <= k < i && voter_lag(#[trigger] voters@[k], node_id, committed) == max_lag,
            total == (if total_lag(voters@.take(i as int), node_id, committed) <= u64::MAX {
                total_lag(voters@.take(i as int), node_id, committed)
            } else {
                u64::MAX as nat
            }),
        decreases voters@.len() - i,
    {
        let v = voters[i];
        proof {
            assert(voters@.take(i + 1).drop_last() =~= voters@.take(i as int));
            assert(voters@.take(i + 1).last() == v);
            reveal(Seq::filter);
        }
        if v.id == node_id || (v.followed && v.recent_active) {
            assert(active(v));
            recent_active_voters = recent_active_voters + 1;
        } else {
            assert(!active(v));
        }
        if v.id != node_id && v.followed {
            let lag: u64 = committed.saturating_sub(v.matched);
            if lag > 0 {
                assert(lags(v));
                lagging_followers = lagging_followers + 1;
            } else {
                assert(!lags(v));
            }
            if lag > max_lag {
                max_lag = lag;
            }
            total = total.saturating_add(lag);
        } else {
            assert(!lags(v));
        }
        i = i + 1;
    }
    assert(voters@.take(i as int) =~= voters@);
    ReplicationHealth {
        configured_voters: voters.len(),
        recent_active_voters,
        lagging_followers,
        max_follower_lag_entries: max_lag,
        total_follower_lag_entries: total,
    }
}

/// A tick is a tenth of a second. A lease lasts for two heartbeats, but ends a
/// tick before the election timeout, and lasts for one tick at least.
pub proof fn leases_last_two_heartbeats(config: ConfigView)
    requires
        config.heartbeat_tick <= u32::MAX,
        0 < config.election_tick <= u32::MAX,
    ensures
        ({
            let twice = 2 * config.heartbeat_tick;
            let most = config.election_tick - 1;
            let within = if twice < most {
                twice
            } else {
                most
            };
            config.lease_duration() == 100_000_000 * (if within < 1 {
                1
            } else {
                within
            })
        }),
{
    assert(config.heartbeat_tick as u32 == config.heartbeat_tick);
    assert(config.election_tick as u32 == config.election_tick);
}

/// An elected leader becomes ready exactly when, still in the term of its
/// barrier, the barrier is committed and durably applied here.
pub proof fn leaders_become_ready_behind_their_barrier(n: NodeView, raft: RaftStatus)
    ensures
        becomes_ready(n, raft) <==> {
            &&& n.is_leader
            &&& !n.is_ready
            &&& n.barrier is Some
            &&& n.barrier->Some_0.0 == raft.term
            &&& n.barrier->Some_0.1 <= raft.committed
            &&& n.barrier->Some_0.1 <= n.durable_applied
        },
        made_ready(n).is_ready,
        made_ready(n).barrier is None,
        made_ready(n) == (NodeView { is_ready: true, barrier: None, ..n }),
{
}

/// An elected leader gets ready: once what the log held at its election is
/// committed and applied in the same term, nothing more is waited for.
pub proof fn elected_leaders_get_ready(
    n: NodeView,
    raft: RaftStatus,
    later: RaftStatus,
    applied: u64,
)
    requires
        !n.is_leader,
        later.term == raft.term,
        raft.last_index <= later.committed,
        raft.last_index <= applied,
    ensures
        becomes_ready(
            NodeView { durable_applied: applied, ..after_soft_state(n, true, raft) },
            later,
        ),
{
}

/// A round is started exactly where the node is a ready leader, has none of this
/// term under way, and its published lease, if it has one, ends within a
/// heartbeat, unless the clock or the count of rounds is at its end.
pub proof fn rounds_are_due_before_the_lease_ends(n: NodeView, raft: RaftStatus, sent_at: u64)
    requires
        sent_at + ticks(n.config.heartbeat_tick) <= u64::MAX,
        sent_at + n.config.lease_duration() <= u64::MAX,
        n.rounds < u64::MAX,
    ensures
        round_is_due(n, raft, sent_at) <==> {
            &&& raft.leads
            &&& n.is_leader
            &&& n.is_ready
            &&& n.round matches Some(round) ==> round.term != raft.term
            &&& n.published matches Some(end) ==> end <= sent_at + ticks(n.config.heartbeat_tick)
        },
{
}

/// A round that a quorum answers in time leases: a ready leader that sent it, still
/// leads in the same term and hears the answer before the deadline may serve until
/// one lease after the round was sent.
pub proof fn answered_rounds_lease(
    n: NodeView,
    raft: RaftStatus,
    sent_at: u64,
    later: RaftStatus,
    contexts: Seq<Seq<u8>>,
    handled_at: u64,
)
    requires
        round_is_due(n, raft, sent_at),
        later.leads,
        later.term == raft.term,
        contexts.contains(lease_context(n.config.node_id, raft.term, (n.rounds + 1) as u64)),
        handled_at < sent_at + n.config.lease_duration(),
        n.published matches Some(end) ==> end < sent_at + n.config.lease_duration(),
    ensures
        ({
            let sent = after_round_check(n, raft, sent_at);
            let end = (sent_at + n.config.lease_duration()) as u64;
            &&& lease_from_read_states(sent, later, contexts, handled_at) == Some(end)
            &&& after_read_states(sent, later, contexts, handled_at).published == Some(end)
            &&& after_read_states(sent, later, contexts, handled_at).round is None
            &&& after_read_states(sent, later, contexts, handled_at).rounds == n.rounds + 1
        }),
{
}

/// What a lease is published by: the answer to the round under way, in its term, to
/// a ready leader, before the deadline, and one that ends later than the last.
pub proof fn leases_come_from_the_round_under_way(
    n: NodeView,
    raft: RaftStatus,
    contexts: Seq<Seq<u8>>,
    handled_at: u64,
)
    ensures
        ({
            let answered = n.round is Some && contexts.contains(n.round->Some_0.context);
            let mints = answered && raft.leads && n.is_leader && n.is_ready && raft.term
                == n.round->Some_0.term && handled_at < n.round->Some_0.valid_until && (
            n.published is None || n.published->Some_0 < n.round->Some_0.valid_until);
            let after = after_read_states(n, raft, contexts, handled_at);
            &&& mints ==> lease_from_read_states(n, raft, contexts, handled_at) == Some(
                n.round->Some_0.valid_until,
            ) && after.published == Some(n.round->Some_0.valid_until)
            &&& !mints ==> lease_from_read_states(n, raft, contexts, handled_at) is None
                && after.published == n.published
            &&& answered ==> after.round is None
            &&& !answered ==> after == n
            &&& after == (NodeView { round: after.round, published: after.published, ..n })
        }),
{
}

/// A round under way is forgotten once the term has passed, and kept otherwise
/// until its answer comes or another is started.
pub proof fn rounds_of_passed_terms_are_forgotten(n: NodeView, raft: RaftStatus, sent_at: u64)
    requires
        raft.leads,
        n.is_leader,
        n.is_ready,
    ensures
        ({
            let after = after_round_check(n, raft, sent_at);
            &&& after.round matches Some(round) ==> round.term == raft.term
            &&& n.round matches Some(round) ==> (round.term == raft.term ==> after == n)
            &&& after.published == n.published
            &&& after == (NodeView { round: after.round, rounds: after.rounds, ..n })
        }),
{
}

/// The context of a round begins with the mark of such rounds and goes on with the
/// node, the term and the round.
pub proof fn contexts_begin_with_their_mark(node_id: u64, term: u64, nonce: u64, i: int)
    ensures
        context_prefix().len() == 24,
        context_prefix()[23] == 0,
        0 <= i < 23 ==> context_prefix()[i] as int == "convex-serving-lease-v1"@[i] as int,
        lease_context(node_id, term, nonce).take(24) == context_prefix(),
        lease_context(node_id, term, nonce).subrange(24, 32) == big_endian::u64_bytes(node_id),
        lease_context(node_id, term, nonce).subrange(32, 40) == big_endian::u64_bytes(term),
        lease_context(node_id, term, nonce).skip(40) == big_endian::u64_bytes(nonce),
{
    reveal_strlit("convex-serving-lease-v1");
    big_endian::u64_bytes_read_back(node_id);
    big_endian::u64_bytes_read_back(term);
    big_endian::u64_bytes_read_back(nonce);
    let context = lease_context(node_id, term, nonce);
    assert(context.take(24) =~= context_prefix());
    assert(context.subrange(24, 32) =~= big_endian::u64_bytes(node_id));
    assert(context.subrange(32, 40) =~= big_endian::u64_bytes(term));
    assert(context.skip(40) =~= big_endian::u64_bytes(nonce));
}

/// A snapshot's proof names exactly the waiting proposals that were committed here
/// before the snapshot came and that the snapshot covers. Where a snapshot replaces
/// one that is in Raft, what was proved for that one counts, and the new frontier
/// does not.
pub proof fn proofs_name_what_was_committed_before(
    n: NodeView,
    index: u64,
    term: u64,
    pending: Option<(u64, u64)>,
    committed: u64,
    i: u64,
)
    ensures
        ({
            let held = n.snapshot_proof;
            let replaces = pending is Some && held is Some && held->Some_0.snapshot_index
                == pending->Some_0.0 && held->Some_0.snapshot_term == pending->Some_0.1;
            let named = proof_before_step(n, index, term, pending, committed);
            &&& named.snapshot_index == index
            &&& named.snapshot_term == term
            &&& replaces ==> (named.committed.contains(i) <==> n.proposals.contains(i) && i <= index
                && held->Some_0.committed.contains(i))
            &&& !replaces ==> (named.committed.contains(i) <==> n.proposals.contains(i) && i
                <= index && i <= committed)
            &&& proof_at_frontier(n, index, term, committed).committed.contains(i)
                <==> n.proposals.contains(i) && i <= index && i <= committed
            &&& proof_at_frontier(n, index, term, committed).is_about(index, term)
        }),
{
}

/// A snapshot is installed with the proof that is held for it, and otherwise with
/// one that proves nothing.
pub proof fn installs_use_the_proof_of_their_snapshot(n: NodeView, index: u64, term: u64, i: u64)
    ensures
        ({
            let used = proof_for_install(n, index, term);
            &&& used.snapshot_index == index
            &&& used.snapshot_term == term
            &&& used.committed.contains(i) <==> (n.snapshot_proof matches Some(held)
                && held.snapshot_index == index && held.snapshot_term == term
                && held.committed.contains(i))
        }),
{
}

/// A snapshot answers each waiting proposal by what is proved: committed where it
/// is, rejected where it is covered without proof, and kept waiting otherwise.
pub proof fn snapshots_answer_by_proof(n: NodeView, index: u64, proof_of: ProofView, i: u64)
    ensures
        snapshot_committed(n, proof_of).contains(i) <==> n.proposals.contains(i)
            && proof_of.committed.contains(i),
        snapshot_rejected(n, index, proof_of).contains(i) <==> n.proposals.contains(i)
            && !proof_of.committed.contains(i) && i <= index,
        snapshot_kept(n, index, proof_of).contains(i) <==> n.proposals.contains(i)
            && !proof_of.committed.contains(i) && index < i,
{
}

/// An installed snapshot moves the applied index up to its own, never back, and
/// nothing that it covers waits any more.
pub proof fn snapshots_move_the_applied_index(
    n: NodeView,
    index: u64,
    proof_of: ProofView,
    i: u64,
)
    ensures
        ({
            let after = snapshot_installed_node(n, index, proof_of);
            &&& after.durable_applied >= n.durable_applied
            &&& after.durable_applied >= index
            &&& after.durable_applied == n.durable_applied || after.durable_applied == index
            &&& after.applied_ahead.contains(i) <==> n.applied_ahead.contains(i) && index < i
            &&& after.proposals.contains(i) <==> n.proposals.contains(i)
                && !proof_of.committed.contains(i) && index < i
            &&& after.snapshot_proof is None
            &&& after.is_leader == n.is_leader
            &&& after.is_ready == n.is_ready
            &&& after.published == n.published
            &&& after.config == n.config
        }),
{
}

/// A node that loses leadership answers each waiting proposal by how far its entry
/// has come: applied is committed, committed waits on for its turn, and anything
/// further is rejected.
pub proof fn lost_leaders_answer_by_progress(n: NodeView, committed: u64, i: u64)
    requires
        n.is_leader,
    ensures
        revoke_committed(n).contains(i) <==> n.proposals.contains(i) && i <= n.durable_applied,
        revoke_rejected(n, committed).contains(i) <==> n.proposals.contains(i) && i > committed && i
            > n.durable_applied,
        revoke_kept(n, committed).contains(i) <==> n.proposals.contains(i) && n.durable_applied < i
            && i <= committed,
        revoked(n, committed).proposals == revoke_kept(n, committed),
        revoked(n, committed).barrier is None,
        revoked(n, committed).durable_applied == n.durable_applied,
        revoked(n, committed).applied_ahead == n.applied_ahead,
        revoked(n, committed).snapshot_proof == n.snapshot_proof,
        revoked(n, committed).rounds == n.rounds,
        revoked(n, committed).config == n.config,
{
}

/// A node that does not lead loses nothing when leadership is revoked.
pub proof fn followers_have_nothing_to_revoke(n: NodeView, committed: u64)
    requires
        !n.is_leader,
    ensures
        revoked(n, committed) == n,
{
}

/// A change of membership ends the lease of a leader at once and leaves it in
/// office where it is still a voter, at any place of the list.
pub proof fn voters_stay_in_office(
    n: NodeView,
    voters: Seq<u64>,
    committed: u64,
    now: u64,
    at: int,
)
    requires
        0 <= at < voters.len(),
        voters[at] == n.config.node_id,
    ensures
        ({
            let after = membership_changed(n, voters, committed, now);
            &&& after.is_leader == n.is_leader
            &&& after.is_ready == n.is_ready
            &&& after.barrier == n.barrier
            &&& after.proposals == n.proposals
            &&& after.round is None
            &&& after.published == (if n.is_leader {
                Some(now)
            } else {
                None
            })
        }),
{
}

/// A member that is no voter loses its office and its waiting proposals by
/// progress.
pub proof fn removed_voters_are_revoked(
    n: NodeView,
    voters: Seq<u64>,
    committed: u64,
    now: u64,
    i: u64,
)
    requires
        forall|k: int| 0 <= k < voters.len() ==> #[trigger] voters[k] != n.config.node_id,
        n.is_leader,
    ensures
        ({
            let after = membership_changed(n, voters, committed, now);
            &&& !after.is_leader
            &&& !after.is_ready
            &&& after.barrier is None
            &&& after.published is None
            &&& after.round is None
            &&& after.proposals.contains(i) <==> n.proposals.contains(i) && n.durable_applied < i
                && i <= committed
        }),
{
    assert(!voters.contains(n.config.node_id));
}

/// A node leads for the application exactly where the protocol says so. A new
/// leader starts behind a barrier at the end of its log, with no lease, and one
/// that goes on leading keeps what it has.
pub proof fn leadership_follows_the_protocol(n: NodeView, leads: bool, raft: RaftStatus)
    requires
        n.wf(),
    ensures
        ({
            let after = after_soft_state(n, leads, raft);
            &&& after.is_leader == leads
            &&& leads && !n.is_leader ==> {
                &&& after.barrier == Some((raft.term, raft.last_index))
                &&& !after.is_ready
                &&& after.round is None
                &&& after.published is None
                &&& after.proposals == n.proposals
            }
            &&& leads && n.is_leader ==> after == n
            &&& !leads && !n.is_leader ==> after == n
            &&& !leads ==> !after.is_ready && after.barrier is None
            &&& after.durable_applied == n.durable_applied
        }),
{
}

/// Applied indexes are kept until the gap before them is filled: behind the end of
/// the run, each that was applied waits on, and nothing else does.
pub proof fn applied_indexes_wait_for_the_gap(n: NodeView, index: u64, frontier: u64, i: u64)
    requires
        index > n.durable_applied,
    ensures
        node_applied(n, index, frontier).applied_ahead.contains(i) <==> (i == index
            || n.applied_ahead.contains(i)) && frontier < i,
        node_applied(n, index, frontier).durable_applied == n.durable_applied,
        node_applied(n, index, frontier).proposals == n.proposals,
        node_applied(n, n.durable_applied, frontier) == n,
{
}

/// The run of applied indexes ends before the first that is missing: it holds each
/// up to its end and not the next one. Applied in order, each moves the end by one.
pub proof fn runs_end_before_the_first_gap(from: u64, applied: Set<u64>, frontier: u64, i: u64)
    requires
        is_frontier(from, applied, frontier),
    ensures
        from <= frontier,
        from < i <= frontier ==> applied.contains(i),
        i == frontier + 1 ==> !applied.contains(i),
        from < i && (forall|k: u64| from < k <= i ==> #[trigger] applied.contains(k)) ==> i
            <= frontier,
{
    if from < i && (forall|k: u64| from < k <= i ==> #[trigger] applied.contains(k)) && i
        > frontier {
        assert(applied.contains((frontier + 1) as u64));
    }
}

/// An entry that follows what is applied, with nothing waiting behind it, is the
/// new end of the run.
pub proof fn the_next_entry_moves_the_end(n: NodeView, index: u64)
    requires
        index == n.durable_applied + 1,
        index < u64::MAX ==> !n.applied_ahead.contains((index + 1) as u64),
    ensures
        is_frontier(n.durable_applied, applied_with(n, index), index),
{
}

/// A configuration entry is applied at its own index, and nothing up to it waits
/// any more.
pub proof fn configurations_move_the_applied_index(n: NodeView, index: u64, i: u64)
    ensures
        configuration_applied_node(n, index).durable_applied == index,
        configuration_applied_node(n, index).applied_ahead.contains(i) <==>
            n.applied_ahead.contains(i) && index < i,
        configuration_applied_node(n, index).proposals == n.proposals,
        configuration_applied_node(n, index).is_leader == n.is_leader,
        configuration_applied_node(n, index).is_ready == n.is_ready,
{
}

/// A committed entry changes the membership where its kind says so, carries
/// nothing where it is empty, is a local client's where one waits at its index, and
/// goes through the state machine otherwise.
pub proof fn entries_go_where_they_belong(n: NodeView, index: u64, kind: EntryKind, empty: bool)
    ensures
        entry_class(n, index, kind, empty) == EntryClass::Configuration <==> kind
            == EntryKind::ConfChange || kind == EntryKind::ConfChangeV2,
        entry_class(n, index, kind, empty) == EntryClass::Empty <==> kind == EntryKind::Normal
            && empty,
        entry_class(n, index, kind, empty) == EntryClass::Local <==> kind == EntryKind::Normal
            && !empty && n.proposals.contains(index),
        entry_class(n, index, kind, empty) == EntryClass::Remote <==> kind == EntryKind::Normal
            && !empty && !n.proposals.contains(index),
{
}

/// A node that has just started leads nothing, waits for nothing, and is where its
/// state machine is.
pub proof fn fresh_nodes_start_where_they_were(config: ConfigView, applied: u64, i: u64)
    ensures
        ({
            let n = fresh_node(config, applied);
            &&& n.wf()
            &&& !n.is_leader
            &&& !n.is_ready
            &&& n.barrier is None
            &&& n.durable_applied == applied
            &&& !n.applied_ahead.contains(i)
            &&& !n.proposals.contains(i)
            &&& n.round is None
            &&& n.published is None
            &&& n.snapshot_proof is None
            &&& n.rounds == 0
            &&& n.config == config
        }),
{
}

/// A voter lags by what it lacks of the committed entries; the leader itself and a
/// voter that is not followed do not lag. A voter is active where it is the leader,
/// or is followed and was heard of recently.
pub proof fn voters_lag_by_what_they_lack(v: VoterProgress, node_id: u64, committed: u64)
    ensures
        v.id != node_id && v.followed && v.matched < committed ==> voter_lag(v, node_id, committed)
            + v.matched == committed,
        v.id == node_id || !v.followed || committed <= v.matched ==> voter_lag(
            v,
            node_id,
            committed,
        ) == 0,
        voter_active(v, node_id) <==> v.id == node_id || (v.followed && v.recent_active),
{
}

proof fn lemma_filter_push(
    voters: Seq<VoterProgress>,
    v: VoterProgress,
    keep: spec_fn(VoterProgress) -> bool,
)
    ensures
        voters.push(v).filter(keep).len() == voters.filter(keep).len() + (if keep(v) {
            1int
        } else {
            0
        }),
{
    reveal(Seq::filter);
    assert(voters.push(v).drop_last() =~= voters);
}

/// The health of a group counts each voter once: one more voter adds its lag to
/// all lags, and one to the lagging and to the active ones where it is among them.
pub proof fn health_counts_every_voter(
    voters: Seq<VoterProgress>,
    v: VoterProgress,
    node_id: u64,
    committed: u64,
)
    ensures
        total_lag(Seq::empty(), node_id, committed) == 0,
        active_voters(Seq::empty(), node_id) == 0,
        lagging_voters(Seq::empty(), node_id, committed) == 0,
        total_lag(voters.push(v), node_id, committed) == total_lag(voters, node_id, committed)
            + voter_lag(v, node_id, committed),
        active_voters(voters.push(v), node_id) == active_voters(voters, node_id) + (if v.id
            == node_id || (v.followed && v.recent_active) {
            1int
        } else {
            0
        }),
        lagging_voters(voters.push(v), node_id, committed) == lagging_voters(
            voters,
            node_id,
            committed,
        ) + (if v.id != node_id && v.followed && v.matched < committed {
            1int
        } else {
            0
        }),
{
    reveal(Seq::filter);
    assert(voters.push(v).drop_last() =~= voters);
    lemma_filter_push(voters, v, |v: VoterProgress| voter_active(v, node_id));
    lemma_filter_push(voters, v, |v: VoterProgress| voter_lag(v, node_id, committed) > 0);
}

} // verus!
