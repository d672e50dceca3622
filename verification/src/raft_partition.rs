//! The life of a Raft-replicated partition on one node.
//!
//! Each partition has a Raft group, and the node that leads it runs the
//! committer. When leadership changes hands, the committer starts or stops.
//! What the node may do as a leader is decided here:
//!
//! - elected, it accepts proposals;
//! - once it has applied the barrier of its term, it is ready;
//! - once a quorum has confirmed it, it serves until its lease ends.

use vstd::prelude::*;

use crate::partition::PartitionId;
use crate::raft_node;
use crate::raft_node::{RaftNode, RaftNodeConfig};
use crate::text;

verus! {

/// What Raft tells of the leadership of the partition.
#[derive(Clone, Copy, Debug, PartialEq, Eq, Structural)]
pub enum LeadershipEvent {
    BecameLeader,
    LostLeadership,
    /// The barrier of the leader's term is applied.
    LeaderReady,
    /// A quorum has confirmed the leader until this time.
    ServingLeaseRefreshed { valid_until: u64 },
    LeaderChanged { leader_id: u64 },
}

/// What follows from a change of leadership, besides the change itself.
#[derive(Clone, Copy, Debug, PartialEq, Eq, Structural)]
pub struct LeadershipEffects {
    /// The timestamps that were reserved must not be handed out any more.
    pub discard_reserved_batch: bool,
    /// The leader is another one than before.
    pub leader_changed: bool,
}

/// What a node may do in a partition. Times are readings of this process's
/// monotonic clock, in nanoseconds.
#[derive(Clone, Copy, Debug, PartialEq, Eq, Structural)]
pub struct RaftPartitionState {
    /// This node leads the partition.
    pub is_leader: bool,
    /// The elected leader has durably applied the barrier of its term.
    pub leader_ready: bool,
    /// The leader, or 0 where it is not known.
    pub leader_id: u64,
    pub partition_id: PartitionId,
    pub node_id: u64,
    /// Until when a quorum has confirmed this leader.
    pub leader_serving_lease_valid_until: Option<u64>,
    /// Every configured partition has installed the cluster's first state.
    pub cluster_genesis_ready: bool,
}

/// The state of a node that has just started.
pub open spec fn started(
    config: raft_node::ConfigView,
    cluster_genesis_ready: bool,
) -> RaftPartitionState {
    RaftPartitionState {
        is_leader: false,
        leader_ready: false,
        leader_id: 0,
        partition_id: config.partition_id,
        node_id: config.node_id,
        leader_serving_lease_valid_until: None,
        cluster_genesis_ready,
    }
}

/// The state once the event has been taken in.
pub open spec fn after_event(
    state: RaftPartitionState,
    event: LeadershipEvent,
) -> RaftPartitionState {
    match event {
        LeadershipEvent::BecameLeader => RaftPartitionState {
            is_leader: true,
            leader_ready: false,
            leader_serving_lease_valid_until: None,
            ..state
        },
        LeadershipEvent::LostLeadership => RaftPartitionState {
            is_leader: false,
            leader_ready: false,
            leader_serving_lease_valid_until: None,
            ..state
        },
        LeadershipEvent::LeaderReady => RaftPartitionState { leader_ready: true, ..state },
        LeadershipEvent::ServingLeaseRefreshed { valid_until } => RaftPartitionState {
            leader_serving_lease_valid_until: Some(valid_until),
            ..state
        },
        LeadershipEvent::LeaderChanged { leader_id } => RaftPartitionState { leader_id, ..state },
    }
}

/// What follows from the event. Timestamps that were reserved under one leader
/// are not handed out under another.
pub open spec fn effects_of(state: RaftPartitionState, event: LeadershipEvent) -> LeadershipEffects {
    LeadershipEffects {
        discard_reserved_batch: event is BecameLeader || event is LostLeadership,
        leader_changed: event matches LeadershipEvent::LeaderChanged { leader_id } && leader_id
            != state.leader_id,
    }
}

impl RaftPartitionState {
    /// The leader is elected and caught up.
    pub open spec fn ready(self) -> bool {
        self.is_leader && self.leader_ready
    }

    /// A quorum has confirmed the ready leader, and the lease has not ended.
    pub open spec fn leased(self, now: u64) -> bool {
        self.ready() && match self.leader_serving_lease_valid_until {
            Some(valid_until) => valid_until > now,
            None => false,
        }
    }

    /// The node may answer reads for the partition.
    pub open spec fn may_serve(self, now: u64) -> bool {
        self.cluster_genesis_ready && self.leased(now)
    }

    /// Check if this node is the leader for this partition.
    pub fn is_leader(&self) -> (r: bool)
        ensures
            r == self.is_leader,
    {
        self.is_leader
    }

    /// Check whether this node is both elected leader and caught up through
    /// the current-term Raft barrier.
    pub fn is_leader_ready(&self) -> (r: bool)
        ensures
            r == self.ready(),
    {
        self.is_leader && self.leader_ready
    }

    /// Whether the lease of the ready leader has not ended.
    pub fn has_leader_serving_lease(&self, now: u64) -> (r: bool)
        ensures
            r == self.leased(now),
    {
        self.is_leader_ready() && match self.leader_serving_lease_valid_until {
            Some(valid_until) => valid_until > now,
            None => false,
        }
    }

    pub fn is_cluster_genesis_ready(&self) -> (r: bool)
        ensures
            r == self.cluster_genesis_ready,
    {
        self.cluster_genesis_ready
    }

    pub fn mark_cluster_genesis_ready(&mut self)
        ensures
            *final(self) == (RaftPartitionState { cluster_genesis_ready: true, ..*old(self) }),
    {
        self.cluster_genesis_ready = true;
    }

    /// Whether the node may answer reads for the partition.
    pub fn can_serve_as_leader(&self, now: u64) -> (r: bool)
        ensures
            r == self.may_serve(now),
    {
        self.cluster_genesis_ready && self.is_leader && self.has_leader_serving_lease(now)
    }

    /// Get the current leader's node ID.
    pub fn leader_id(&self) -> (r: u64)
        ensures
            r == self.leader_id,
    {
        self.leader_id
    }

    /// Get the partition ID.
    pub fn partition_id(&self) -> (r: PartitionId)
        ensures
            r == self.partition_id,
    {
        self.partition_id
    }

    /// Get this node's ID within the Raft group.
    pub fn node_id(&self) -> (r: u64)
        ensures
            r == self.node_id,
    {
        self.node_id
    }

    /// Takes in what Raft tells of the leadership.
    pub fn apply(&mut self, event: LeadershipEvent) -> (r: LeadershipEffects)
        ensures
            *final(self) == after_event(*old(self), event),
            r == effects_of(*old(self), event),
    {
        match event {
            LeadershipEvent::BecameLeader => {
                self.leader_ready = false;
                self.leader_serving_lease_valid_until = None;
                self.is_leader = true;
                LeadershipEffects { discard_reserved_batch: true, leader_changed: false }
            },
            LeadershipEvent::LostLeadership => {
                self.is_leader = false;
                self.leader_ready = false;
                self.leader_serving_lease_valid_until = None;
                LeadershipEffects { discard_reserved_batch: true, leader_changed: false }
            },
            LeadershipEvent::LeaderReady => {
                self.leader_ready = true;
                LeadershipEffects { discard_reserved_batch: false, leader_changed: false }
            },
            LeadershipEvent::ServingLeaseRefreshed { valid_until } => {
                self.leader_serving_lease_valid_until = Some(valid_until);
                LeadershipEffects { discard_reserved_batch: false, leader_changed: false }
            },
            LeadershipEvent::LeaderChanged { leader_id } => {
                let leader_changed = leader_id != self.leader_id;
                self.leader_id = leader_id;
                LeadershipEffects { discard_reserved_batch: false, leader_changed }
            },
        }
    }

    /// The error for a message to a Raft node that is gone.
    pub fn not_running(&self) -> (r: String)
        ensures
            r@ == "Raft node for partition "@ + self.partition_id.printed() + " not running"@,
    {
        let mut s = "Raft node for partition ".to_owned();
        s.append(self.partition_id.print().as_str());
        s.append(" not running");
        s
    }

    /// The error for a Raft node that went away before it answered.
    pub fn stopped_before_applied(&self, index: u64) -> (r: String)
        ensures
            r@ == "Raft node for partition "@ + self.partition_id.printed()
                + " stopped before marking index "@ + text::decimal(index as nat) + " applied"@,
    {
        let mut s = "Raft node for partition ".to_owned();
        s.append(self.partition_id.print().as_str());
        s.append(" stopped before marking index ");
        text::push_decimal(&mut s, index);
        s.append(" applied");
        s
    }
}

/// Holds the Raft node of a partition until it is started, and what the node
/// may do.
pub struct RaftPartitionManager {
    node: Option<RaftNode>,
    state: RaftPartitionState,
}

impl RaftPartitionManager {
    /// The node that has not been started yet.
    pub closed spec fn waiting(&self) -> Option<RaftNode> {
        self.node
    }

    /// What the node may do.
    pub closed spec fn allowed(&self) -> RaftPartitionState {
        self.state
    }

    /// A partition of a cluster whose first state is there. The log has been
    /// applied up to `applied`.
    pub fn new(config: RaftNodeConfig, applied: u64) -> (r: Self)
        ensures
            r.allowed() == started(config@, true),
            r.waiting() matches Some(node) && node.wf() && node@ == raft_node::fresh_node(
                config@,
                applied,
            ),
    {
        Self::new_with_cluster_genesis_gate(config, applied, true)
    }

    /// A partition that serves once the cluster's first state is there.
    pub fn new_with_cluster_genesis_gate(
        config: RaftNodeConfig,
        applied: u64,
        cluster_genesis_ready: bool,
    ) -> (r: Self)
        ensures
            r.allowed() == started(config@, cluster_genesis_ready),
            r.waiting() matches Some(node) && node.wf() && node@ == raft_node::fresh_node(
                config@,
                applied,
            ),
    {
        let state = RaftPartitionState {
            is_leader: false,
            leader_ready: false,
            leader_id: 0,
            partition_id: config.partition_id,
            node_id: config.node_id,
            leader_serving_lease_valid_until: None,
            cluster_genesis_ready,
        };
        RaftPartitionManager { node: Some(RaftNode::new(config, applied)), state }
    }

    /// What the node may do.
    pub fn state(&self) -> (r: RaftPartitionState)
        ensures
            r == self.allowed(),
    {
        self.state
    }

    /// Takes in what Raft tells of the leadership.
    pub fn apply(&mut self, event: LeadershipEvent) -> (r: LeadershipEffects)
        ensures
            final(self).allowed() == after_event(old(self).allowed(), event),
            final(self).waiting() == old(self).waiting(),
            r == effects_of(old(self).allowed(), event),
    {
        self.state.apply(event)
    }

    /// Take ownership of the Raft node for spawning into a background task.
    pub fn take_node(&mut self) -> (r: Option<RaftNode>)
        ensures
            r == old(self).waiting(),
            final(self).waiting() is None,
            final(self).allowed() == old(self).allowed(),
    {
        self.node.take()
    }
}

/// A leader that has just been elected does not serve: it waits for its
/// barrier and for a lease of its own, whatever it held before.
pub proof fn elected_leader_starts_without_lease(state: RaftPartitionState, now: u64)
    ensures
        !after_event(state, LeadershipEvent::BecameLeader).may_serve(now),
        !after_event(
            after_event(state, LeadershipEvent::BecameLeader),
            LeadershipEvent::LeaderReady,
        ).may_serve(now),
{
}

/// A node that loses leadership stops serving at once, and no late word of the
/// old leadership makes it serve again.
pub proof fn deposed_leader_does_not_serve(
    state: RaftPartitionState,
    late: LeadershipEvent,
    now: u64,
)
    requires
        !(late is BecameLeader),
    ensures
        !after_event(state, LeadershipEvent::LostLeadership).may_serve(now),
        !after_event(after_event(state, LeadershipEvent::LostLeadership), late).may_serve(now),
{
}

/// A lease that has ended stays ended: without news from Raft, a node that may
/// not serve for want of a lease may not serve later either.
pub proof fn serving_ends_with_the_lease(state: RaftPartitionState, now: u64, later: u64)
    requires
        now <= later,
        state.may_serve(later),
    ensures
        state.may_serve(now),
        state.is_leader,
        state.leader_ready,
        state.cluster_genesis_ready,
        state.leader_serving_lease_valid_until matches Some(valid_until) && later < valid_until,
{
}

/// Nothing that Raft tells makes the cluster's first state count as installed.
pub proof fn leadership_does_not_install_the_genesis(
    state: RaftPartitionState,
    event: LeadershipEvent,
    now: u64,
)
    requires
        !state.cluster_genesis_ready,
    ensures
        !after_event(state, event).may_serve(now),
{
}

/// A leader serves until the end of its newest lease: once a quorum has
/// confirmed it until a time, a leader that is ready, in a cluster with its first
/// state, may serve at every time before that and at no time from then on,
/// whatever lease it held before.
pub proof fn newest_lease_decides(state: RaftPartitionState, valid_until: u64, now: u64)
    ensures
        ({
            let renewed = after_event(
                state,
                LeadershipEvent::ServingLeaseRefreshed { valid_until },
            );
            &&& renewed.may_serve(now) <==> state.is_leader && state.leader_ready
                && state.cluster_genesis_ready && now < valid_until
            &&& renewed.leased(now) <==> state.is_leader && state.leader_ready && now < valid_until
        }),
{
}

/// A node may serve exactly where it is the leader, has applied its barrier, the
/// cluster's first state is there and the lease it holds ends later.
pub proof fn serving_takes_all_four(state: RaftPartitionState, now: u64)
    ensures
        state.may_serve(now) <==> {
            &&& state.is_leader
            &&& state.leader_ready
            &&& state.cluster_genesis_ready
            &&& state.leader_serving_lease_valid_until matches Some(end)
            &&& now < end
        },
        state.leased(now) <==> {
            &&& state.is_leader
            &&& state.leader_ready
            &&& state.leader_serving_lease_valid_until matches Some(end)
            &&& now < end
        },
        state.ready() <==> state.is_leader && state.leader_ready,
{
}

/// The state after the first `n` events.
pub open spec fn after_events(
    state: RaftPartitionState,
    events: Seq<LeadershipEvent>,
    n: nat,
) -> RaftPartitionState
    decreases n,
{
    if n == 0 {
        state
    } else {
        after_event(after_events(state, events, (n - 1) as nat), events[n - 1])
    }
}

/// The node was elected at `k`, and up to `n` was neither elected again nor
/// deposed.
pub open spec fn leads_since(events: Seq<LeadershipEvent>, k: int, n: int) -> bool {
    &&& 0 <= k < n
    &&& events[k] is BecameLeader
    &&& forall|i: int|
        k < i < n ==> !(#[trigger] events[i] is BecameLeader) && !(events[i] is LostLeadership)
}

/// The last confirmation between `k` and `n` lasts until `end`.
pub open spec fn leased_since(
    events: Seq<LeadershipEvent>,
    k: int,
    n: int,
    end: u64,
) -> bool {
    exists|i: int|
        k < i < n && #[trigger] events[i] == (LeadershipEvent::ServingLeaseRefreshed {
            valid_until: end,
        }) && forall|j: int| i < j < n ==> !(#[trigger] events[j] is ServingLeaseRefreshed)
}

/// The state is that of a node elected at `k`, if at all, after `n` events.
spec fn standing(
    state: RaftPartitionState,
    events: Seq<LeadershipEvent>,
    n: int,
    k: int,
) -> bool {
    &&& state.is_leader <==> leads_since(events, k, n)
    &&& state.is_leader ==> (state.leader_ready <==> exists|i: int|
        k < i < n && #[trigger] events[i] is LeaderReady)
    &&& state.is_leader ==> (match state.leader_serving_lease_valid_until {
        Some(end) => leased_since(events, k, n, end),
        None => forall|i: int| k < i < n ==> !(#[trigger] events[i] is ServingLeaseRefreshed),
    })
    &&& !state.is_leader ==> forall|i: int| !leads_since(events, i, n)
}

proof fn lemma_still_leads(
    state: RaftPartitionState,
    events: Seq<LeadershipEvent>,
    n: nat,
    k: int,
)
    requires
        0 < n <= events.len(),
        !(events[n - 1] is BecameLeader),
        !(events[n - 1] is LostLeadership),
        standing(after_events(state, events, (n - 1) as nat), events, n - 1, k),
    ensures
        standing(after_events(state, events, n), events, n as int, k),
{
    let before = after_events(state, events, (n - 1) as nat);
    let last = events[n - 1];
    let after = after_events(state, events, n);
    if before.is_leader {
        assert(leads_since(events, k, n as int));
        if last is LeaderReady {
            assert(events[n - 1] is LeaderReady);
        } else if after.leader_ready {
            let i = choose|i: int| k < i < n - 1 && #[trigger] events[i] is LeaderReady;
            assert(k < i < n && events[i] is LeaderReady);
        }
        match last {
            LeadershipEvent::ServingLeaseRefreshed { valid_until } => {
                assert(events[n - 1] == (LeadershipEvent::ServingLeaseRefreshed { valid_until }));
                assert(leased_since(events, k, n as int, valid_until));
            },
            _ => {
                match before.leader_serving_lease_valid_until {
                    Some(end) => {
                        let i = choose|i: int|
                            k < i < n - 1 && #[trigger] events[i] == (
                            LeadershipEvent::ServingLeaseRefreshed { valid_until: end })
                                && forall|j: int|
                                i < j < n - 1 ==> !(#[trigger] events[j] is ServingLeaseRefreshed);
                        assert(events[i] == (LeadershipEvent::ServingLeaseRefreshed {
                            valid_until: end,
                        }));
                        assert(leased_since(events, k, n as int, end));
                    },
                    None => {},
                }
            },
        }
    } else {
        assert forall|i: int| !leads_since(events, i, n as int) by {
            if leads_since(events, i, n as int) {
                assert(i < n - 1);
                assert(leads_since(events, i, n - 1));
            }
        }
    }
}

proof fn lemma_leads(state: RaftPartitionState, events: Seq<LeadershipEvent>, n: nat) -> (k: int)
    requires
        !state.is_leader,
        n <= events.len(),
    ensures
        standing(after_events(state, events, n), events, n as int, k),
        after_events(state, events, n).cluster_genesis_ready == state.cluster_genesis_ready,
    decreases n,
{
    if n == 0 {
        -1
    } else {
        let before = after_events(state, events, (n - 1) as nat);
        let k = lemma_leads(state, events, (n - 1) as nat);
        let last = events[n - 1];
        if last is BecameLeader {
            assert(leads_since(events, n - 1, n as int));
            n - 1
        } else if last is LostLeadership {
            assert forall|i: int| !leads_since(events, i, n as int) by {
                if leads_since(events, i, n as int) {
                    assert(events[n - 1] is BecameLeader || i < n - 1);
                }
            }
            k
        } else {
            lemma_still_leads(state, events, n, k);
            k
        }
    }
}

/// Over any history of a node that has just started, it may serve at a time
/// exactly where the cluster's first state is there, it was elected and has not
/// been deposed since, has become ready since, and the last confirmation since
/// then is for later than that time.
pub proof fn leaders_serve_under_their_own_newest_lease(
    config: raft_node::ConfigView,
    cluster_genesis_ready: bool,
    events: Seq<LeadershipEvent>,
    now: u64,
)
    ensures
        after_events(started(config, cluster_genesis_ready), events, events.len()).may_serve(now)
            <==> cluster_genesis_ready && exists|k: int, i: int, end: u64|
            leads_since(events, k, events.len() as int) && k < i < events.len() && (
            #[trigger] events[i]) is LeaderReady && #[trigger] leased_since(
                events,
                k,
                events.len() as int,
                end,
            ) && now < end,
{
    let fresh = started(config, cluster_genesis_ready);
    let n = events.len();
    let state = after_events(fresh, events, n);
    let k = lemma_leads(fresh, events, n);
    if state.may_serve(now) {
        let i = choose|i: int| k < i < n && #[trigger] events[i] is LeaderReady;
        let end = state.leader_serving_lease_valid_until->Some_0;
        assert(leads_since(events, k, n as int) && events[i] is LeaderReady && leased_since(
            events,
            k,
            n as int,
            end,
        ));
    }
    if cluster_genesis_ready && exists|k: int, i: int, end: u64|
        leads_since(events, k, events.len() as int) && k < i < events.len() && (
        #[trigger] events[i]) is LeaderReady && #[trigger] leased_since(
            events,
            k,
            events.len() as int,
            end,
        ) && now < end {
        let (l, i, end) = choose|k: int, i: int, end: u64|
            leads_since(events, k, events.len() as int) && k < i < events.len() && (
            #[trigger] events[i]) is LeaderReady && #[trigger] leased_since(
                events,
                k,
                events.len() as int,
                end,
            ) && now < end;
        assert(state.is_leader);
        assert(leads_since(events, k, n as int));
        assert(l == k) by {
            if l < k {
                assert(events[k] is BecameLeader);
            }
            if k < l {
                assert(events[l] is BecameLeader);
            }
        }
        let a = choose|i: int|
            k < i < n && #[trigger] events[i] == (LeadershipEvent::ServingLeaseRefreshed {
                valid_until: end,
            }) && forall|j: int| i < j < n ==> !(#[trigger] events[j] is ServingLeaseRefreshed);
        assert(events[a] is ServingLeaseRefreshed);
        let held = state.leader_serving_lease_valid_until;
        assert(held is Some);
        let b = choose|i: int|
            k < i < n && #[trigger] events[i] == (LeadershipEvent::ServingLeaseRefreshed {
                valid_until: held->Some_0,
            }) && forall|j: int| i < j < n ==> !(#[trigger] events[j] is ServingLeaseRefreshed);
        assert(events[b] is ServingLeaseRefreshed);
        assert(a == b);
    }
}

/// Each word from Raft changes what it is about and nothing else: who leads is
/// known from the last word on it, and neither the place of the node nor the
/// cluster's first state depends on leadership.
pub proof fn events_change_what_they_tell(state: RaftPartitionState, event: LeadershipEvent)
    ensures
        ({
            let after = after_event(state, event);
            &&& after.partition_id == state.partition_id
            &&& after.node_id == state.node_id
            &&& after.cluster_genesis_ready == state.cluster_genesis_ready
            &&& after.leader_id == (match event {
                LeadershipEvent::LeaderChanged { leader_id } => leader_id,
                _ => state.leader_id,
            })
            &&& event is LeaderChanged ==> after.is_leader == state.is_leader && after.leader_ready
                == state.leader_ready && after.leader_serving_lease_valid_until
                == state.leader_serving_lease_valid_until
            &&& event is BecameLeader ==> after.is_leader
            &&& event is LostLeadership ==> !after.is_leader
            &&& event is BecameLeader || event is LostLeadership ==> !after.leader_ready
                && after.leader_serving_lease_valid_until is None
            &&& event is LeaderReady ==> after.leader_ready && after.is_leader == state.is_leader
                && after.leader_serving_lease_valid_until == state.leader_serving_lease_valid_until
            &&& event is ServingLeaseRefreshed ==> after.is_leader == state.is_leader
                && after.leader_ready == state.leader_ready
        }),
{
}

/// Reserved timestamps are dropped exactly when leadership comes or goes, and a
/// change of the leader is told exactly when another one is known than before.
pub proof fn effects_follow_the_change(state: RaftPartitionState, event: LeadershipEvent)
    ensures
        effects_of(state, event).discard_reserved_batch <==> event == LeadershipEvent::BecameLeader
            || event == LeadershipEvent::LostLeadership,
        effects_of(state, event).leader_changed <==> after_event(state, event).leader_id
            != state.leader_id,
{
}

/// A node that has just started leads nothing, knows no leader, holds no lease,
/// and stands where its configuration puts it.
pub proof fn a_started_node_waits(
    config: raft_node::ConfigView,
    cluster_genesis_ready: bool,
    now: u64,
)
    ensures
        ({
            let state = started(config, cluster_genesis_ready);
            &&& !state.is_leader
            &&& !state.leader_ready
            &&& !state.may_serve(now)
            &&& state.leader_serving_lease_valid_until is None
            &&& state.leader_id == 0
            &&& state.partition_id == config.partition_id
            &&& state.node_id == config.node_id
            &&& state.cluster_genesis_ready == cluster_genesis_ready
        }),
{
}

} // verus!
