//! How a node enters the shared directory while others do the same.
//!
//! The directory is one entry of a key-value store, which refuses an update of
//! a revision that is no longer the newest. A refused update is tried again on
//! the newer directory.

use vstd::prelude::*;

use crate::membership;
use crate::membership::{
    MembershipError,
    MembershipSnapshot,
    MembershipVersion,
    NodeMembership,
    NodeView,
    SnapshotView,
};
use crate::retry;

verus! {

pub const MEMBERSHIP_KV_BUCKET: &'static str = "convex_membership";

pub const MEMBERSHIP_CURRENT_KEY: &'static str = "current";

/// How many states of the directory the store keeps.
pub const MEMBERSHIP_KV_HISTORY: i64 = 16;

/// The directory that a node starts in an empty store.
pub open spec fn first_directory(node: NodeView) -> SnapshotView {
    SnapshotView {
        version: 0,
        nodes: Map::empty().insert(
            node.node_id,
            NodeView { lease_renewal_sequence: Some(1), ..node },
        ),
    }
}

/// Where a registration stands.
#[derive(Clone, Debug)]
pub enum RegistrationPhase {
    /// The directory is being read.
    Reading,
    /// The new directory is being stored.
    Writing { snapshot: MembershipSnapshot },
    /// Another node was faster: waiting before the next attempt.
    Waiting,
    /// The node is in the directory.
    Done { snapshot: MembershipSnapshot },
    /// Other nodes were faster every time.
    Failed,
}

/// What a [`RegistrationPhase`] states.
#[verifier::ext_equal]
pub enum RegistrationPhaseView {
    Reading,
    Writing { snapshot: SnapshotView },
    Waiting,
    Done { snapshot: SnapshotView },
    Failed,
}

/// What happens to a registration.
#[derive(Clone, Debug)]
pub enum RegistrationEvent {
    /// The store holds this directory, at this revision.
    Found { snapshot: MembershipSnapshot, revision: u64 },
    /// The store holds no directory.
    Empty,
    /// The new directory was stored.
    Stored,
    /// Another node was faster.
    Conflict,
    /// The wait is over.
    Slept,
}

/// What a [`RegistrationEvent`] states.
pub enum RegistrationEventView {
    Found { snapshot: SnapshotView, revision: u64 },
    Empty,
    Stored,
    Conflict,
    Slept,
}

/// What a registration has done next.
#[derive(Clone, Copy, Debug, PartialEq, Eq, Structural)]
pub enum RegistrationAction {
    /// Read the directory.
    Read,
    /// Replace the directory, if it still has the revision.
    Update { revision: u64 },
    /// Store the directory, if there is still none.
    Create,
    /// Wait for so many milliseconds.
    Sleep { millis: u64 },
    /// The registration is over.
    Finish,
    /// The registration has failed.
    Fail,
    /// The event does not belong here: nothing.
    Ignore,
}

impl View for RegistrationPhase {
    type V = RegistrationPhaseView;

    open spec fn view(&self) -> RegistrationPhaseView {
        match self {
            RegistrationPhase::Reading => RegistrationPhaseView::Reading,
            RegistrationPhase::Writing { snapshot } => RegistrationPhaseView::Writing {
                snapshot: snapshot@,
            },
            RegistrationPhase::Waiting => RegistrationPhaseView::Waiting,
            RegistrationPhase::Done { snapshot } => RegistrationPhaseView::Done {
                snapshot: snapshot@,
            },
            RegistrationPhase::Failed => RegistrationPhaseView::Failed,
        }
    }
}

impl View for RegistrationEvent {
    type V = RegistrationEventView;

    open spec fn view(&self) -> RegistrationEventView {
        match self {
            RegistrationEvent::Found { snapshot, revision } => RegistrationEventView::Found {
                snapshot: snapshot@,
                revision: *revision,
            },
            RegistrationEvent::Empty => RegistrationEventView::Empty,
            RegistrationEvent::Stored => RegistrationEventView::Stored,
            RegistrationEvent::Conflict => RegistrationEventView::Conflict,
            RegistrationEvent::Slept => RegistrationEventView::Slept,
        }
    }
}

/// What is known of a registration.
#[verifier::ext_equal]
pub struct RegistrationView {
    pub node: NodeView,
    pub attempt: u32,
    pub phase: RegistrationPhaseView,
}

/// One step of a registration.
pub open spec fn registration_step(
    state: RegistrationView,
    event: RegistrationEventView,
) -> (RegistrationView, RegistrationAction) {
    match (state.phase, event) {
        (RegistrationPhaseView::Reading, RegistrationEventView::Found { snapshot, revision }) => {
            let updated = membership::registered(snapshot, state.node);
            if updated == snapshot {
                (
                    RegistrationView { phase: RegistrationPhaseView::Done { snapshot }, ..state },
                    RegistrationAction::Finish,
                )
            } else {
                (
                    RegistrationView {
                        phase: RegistrationPhaseView::Writing { snapshot: updated },
                        ..state
                    },
                    RegistrationAction::Update { revision },
                )
            }
        },
        (RegistrationPhaseView::Reading, RegistrationEventView::Empty) => (
            RegistrationView {
                phase: RegistrationPhaseView::Writing { snapshot: first_directory(state.node) },
                ..state
            },
            RegistrationAction::Create,
        ),
        (RegistrationPhaseView::Writing { snapshot }, RegistrationEventView::Stored) => (
            RegistrationView { phase: RegistrationPhaseView::Done { snapshot }, ..state },
            RegistrationAction::Finish,
        ),
        (RegistrationPhaseView::Writing { snapshot }, RegistrationEventView::Conflict) => (
            RegistrationView { phase: RegistrationPhaseView::Waiting, ..state },
            RegistrationAction::Sleep { millis: retry::wait_after(state.attempt) },
        ),
        (RegistrationPhaseView::Waiting, RegistrationEventView::Slept) => if state.attempt + 1
            < retry::ATTEMPTS {
            (
                RegistrationView {
                    attempt: (state.attempt + 1) as u32,
                    phase: RegistrationPhaseView::Reading,
                    ..state
                },
                RegistrationAction::Read,
            )
        } else {
            (
                RegistrationView { phase: RegistrationPhaseView::Failed, ..state },
                RegistrationAction::Fail,
            )
        },
        _ => (state, RegistrationAction::Ignore),
    }
}

/// A node on its way into the directory. Whoever runs it performs each action
/// and tells what came of it.
#[derive(Clone, Debug)]
pub struct Registration {
    node: NodeMembership,
    attempt: u32,
    phase: RegistrationPhase,
}

impl View for Registration {
    type V = RegistrationView;

    closed spec fn view(&self) -> RegistrationView {
        RegistrationView { node: self.node@, attempt: self.attempt, phase: self.phase@ }
    }
}

impl Registration {
    pub closed spec fn wf(&self) -> bool {
        &&& self.attempt < retry::ATTEMPTS
        &&& match self.phase {
            RegistrationPhase::Writing { snapshot } => snapshot.wf(),
            RegistrationPhase::Done { snapshot } => snapshot.wf(),
            _ => true,
        }
    }

    /// The node is about to read the directory for the first time.
    pub fn new(node: NodeMembership) -> (r: Self)
        ensures
            r.wf(),
            r@ == (RegistrationView {
                node: node@,
                attempt: 0,
                phase: RegistrationPhaseView::Reading,
            }),
    {
        Registration { node, attempt: 0, phase: RegistrationPhase::Reading }
    }

    /// The directory that is being stored, or in which the node now is.
    pub fn snapshot(&self) -> (r: Option<&MembershipSnapshot>)
        requires
            self.wf(),
        ensures
            match r {
                Some(snapshot) => snapshot.wf() && (self@.phase == (
                RegistrationPhaseView::Writing { snapshot: snapshot@ }) || self@.phase == (
                RegistrationPhaseView::Done { snapshot: snapshot@ })),
                None => !(self@.phase is Writing) && !(self@.phase is Done),
            },
    {
        match &self.phase {
            RegistrationPhase::Writing { snapshot } => Some(snapshot),
            RegistrationPhase::Done { snapshot } => Some(snapshot),
            _ => None,
        }
    }

    /// The error of a registration that has failed.
    pub fn error(&self) -> (r: MembershipError)
        ensures
            r.text() == "Membership: failed to register node "@ + self@.node.node_id
                + " after CAS retries"@,
    {
        MembershipError::RegistrationConflicts { node_id: self.node.node_id.as_str().to_owned() }
    }

    /// One step of the registration.
    pub fn step(&mut self, event: RegistrationEvent) -> (r: RegistrationAction)
        requires
            old(self).wf(),
            event matches RegistrationEvent::Found { snapshot, .. } ==> snapshot.wf(),
        ensures
            final(self).wf(),
            (final(self)@, r) == registration_step(old(self)@, event@),
    {
        let mut phase = RegistrationPhase::Failed;
        std::mem::swap(&mut phase, &mut self.phase);
        match phase {
            RegistrationPhase::Reading => match event {
                RegistrationEvent::Found { snapshot, revision } => {
                    let updated = snapshot.with_registered_node(self.node.duplicate());
                    if updated.same(&snapshot) {
                        self.phase = RegistrationPhase::Done { snapshot };
                        RegistrationAction::Finish
                    } else {
                        self.phase = RegistrationPhase::Writing { snapshot: updated };
                        RegistrationAction::Update { revision }
                    }
                },
                RegistrationEvent::Empty => {
                    let mut node = self.node.duplicate();
                    node.lease_renewal_sequence = Some(1);
                    let mut nodes: Vec<NodeMembership> = Vec::new();
                    let ghost stated = node@;
                    nodes.push(node);
                    proof {
                        let list = membership::node_list(nodes@);
                        assert(list.drop_last() =~= Seq::empty());
                        assert(list.last() == stated);
                        assert(membership::by_name(list.drop_last()) == Map::<
                            Seq<char>,
                            NodeView,
                        >::empty());
                    }
                    let snapshot = MembershipSnapshot::new(MembershipVersion::bootstrap(), nodes);
                    assert(snapshot@ =~= first_directory(old(self)@.node));
                    self.phase = RegistrationPhase::Writing { snapshot };
                    RegistrationAction::Create
                },
                _ => {
                    self.phase = RegistrationPhase::Reading;
                    RegistrationAction::Ignore
                },
            },
            RegistrationPhase::Writing { snapshot } => match event {
                RegistrationEvent::Stored => {
                    self.phase = RegistrationPhase::Done { snapshot };
                    RegistrationAction::Finish
                },
                RegistrationEvent::Conflict => {
                    self.phase = RegistrationPhase::Waiting;
                    RegistrationAction::Sleep { millis: retry::wait_millis(self.attempt) }
                },
                _ => {
                    self.phase = RegistrationPhase::Writing { snapshot };
                    RegistrationAction::Ignore
                },
            },
            RegistrationPhase::Waiting => match event {
                RegistrationEvent::Slept => {
                    if self.attempt + 1 < retry::ATTEMPTS {
                        self.attempt = self.attempt + 1;
                        self.phase = RegistrationPhase::Reading;
                        RegistrationAction::Read
                    } else {
                        self.phase = RegistrationPhase::Failed;
                        RegistrationAction::Fail
                    }
                },
                _ => {
                    self.phase = RegistrationPhase::Waiting;
                    RegistrationAction::Ignore
                },
            },
            RegistrationPhase::Done { snapshot } => {
                self.phase = RegistrationPhase::Done { snapshot };
                RegistrationAction::Ignore
            },
            RegistrationPhase::Failed => RegistrationAction::Ignore,
        }
    }
}

/// What a node that needs a directory does next.
pub enum Initialization {
    /// The directory is there.
    Ready(MembershipSnapshot),
    /// Store the bootstrap directory, if there is still none.
    Create(MembershipSnapshot),
}

/// A directory that is there is taken as it is; otherwise the bootstrap
/// directory is to be stored.
pub fn ensure_initialized(
    existing: Option<MembershipSnapshot>,
    bootstrap: MembershipSnapshot,
) -> (r: Initialization)
    ensures
        r == (match existing {
            Some(existing) => Initialization::Ready(existing),
            None => Initialization::Create(bootstrap),
        }),
{
    match existing {
        Some(existing) => Initialization::Ready(existing),
        None => Initialization::Create(bootstrap),
    }
}

/// The directory once storing the bootstrap directory was tried: that one
/// where it was stored, and the one of the node that was faster otherwise.
pub fn initialized(
    stored: bool,
    bootstrap: MembershipSnapshot,
    reloaded: Option<MembershipSnapshot>,
) -> (r: Result<MembershipSnapshot, MembershipError>)
    ensures
        r == (if stored {
            Ok(bootstrap)
        } else {
            match reloaded {
                Some(snapshot) => Ok(snapshot),
                None => Err(MembershipError::NotInitialized),
            }
        }),
{
    if stored {
        return Ok(bootstrap);
    }
    match reloaded {
        Some(snapshot) => Ok(snapshot),
        None => Err(MembershipError::NotInitialized),
    }
}

/// A registration ends with the node in the directory: what it stores, or
/// finds no need to store, has an entry of the node's own generation or of a
/// later one.
pub proof fn registration_ends_in_the_directory(
    state: RegistrationView,
    event: RegistrationEventView,
)
    requires
        state.phase is Reading,
    ensures
        registration_step(state, event).0.phase matches RegistrationPhaseView::Done { snapshot }
            ==> snapshot.nodes.dom().contains(state.node.node_id)
            && snapshot.nodes[state.node.node_id].generation >= state.node.generation,
        registration_step(state, event).0.phase matches RegistrationPhaseView::Writing { snapshot }
            ==> snapshot.nodes.dom().contains(state.node.node_id)
            && snapshot.nodes[state.node.node_id].generation == state.node.generation,
{
}

/// A registration gives up only after its last attempt, and no attempt follows
/// once it has ended.
pub proof fn registration_uses_every_attempt(
    state: RegistrationView,
    event: RegistrationEventView,
)
    ensures
        registration_step(state, event).1 == RegistrationAction::Fail ==> state.attempt + 1
            >= retry::ATTEMPTS,
        state.phase is Done || state.phase is Failed ==> registration_step(state, event) == (
            state,
            RegistrationAction::Ignore,
        ),
{
}

/// The directory in the store, and its revision.
#[verifier::ext_equal]
pub struct StoredDirectory {
    pub snapshot: SnapshotView,
    pub revision: u64,
}

/// A registration on some node, and what it does next.
pub struct Registrant {
    pub state: RegistrationView,
    pub next: RegistrationAction,
}

/// All registrations, and the directory that they share.
pub struct Joining {
    pub stored: Option<StoredDirectory>,
    pub registrants: Seq<Registrant>,
}

/// Something that happens to the directory or to a registration.
pub enum JoiningStep {
    /// A node stores a bootstrap directory, where there is none.
    Initialize { snapshot: SnapshotView, revision: u64 },
    /// A registration begins.
    Begin { node: NodeView },
    /// A registration reads the directory.
    Read { who: int },
    /// The store takes a directory that was sent to it, if the one that was
    /// read is still there. The registration may not be told that it did.
    Write { who: int, revision: u64, told: bool },
    /// A registration has waited.
    Slept { who: int },
}

impl Joining {
    /// The registration goes on with an event.
    pub open spec fn going_on(self, who: int, event: RegistrationEventView) -> Seq<Registrant> {
        let (state, next) = registration_step(self.registrants[who].state, event);
        self.registrants.update(who, Registrant { state, next })
    }

    /// What the registration sends is based on what the store holds.
    pub open spec fn takes_from(self, who: int) -> bool {
        match (self.registrants[who].next, self.stored) {
            (RegistrationAction::Update { revision }, Some(stored)) => revision == stored.revision,
            (RegistrationAction::Create, None) => true,
            _ => false,
        }
    }

    /// The registration has sent a directory.
    pub open spec fn has_sent(self, who: int) -> bool {
        &&& 0 <= who < self.registrants.len()
        &&& self.registrants[who].next is Update || self.registrants[who].next is Create
    }
}

/// What the step makes of the directory and the registrations.
pub open spec fn joining_step(before: Joining, step: JoiningStep, after: Joining) -> bool {
    match step {
        JoiningStep::Initialize { snapshot, revision } => after == (Joining {
            stored: match before.stored {
                Some(stored) => Some(stored),
                None => Some(StoredDirectory { snapshot, revision }),
            },
            ..before
        }),
        JoiningStep::Begin { node } => after == (Joining {
            registrants: before.registrants.push(
                Registrant {
                    state: RegistrationView {
                        node,
                        attempt: 0,
                        phase: RegistrationPhaseView::Reading,
                    },
                    next: RegistrationAction::Read,
                },
            ),
            ..before
        }),
        JoiningStep::Read { who } => {
            &&& 0 <= who < before.registrants.len()
            &&& before.registrants[who].next is Read
            &&& after == (Joining {
                registrants: before.going_on(
                    who,
                    match before.stored {
                        Some(stored) => RegistrationEventView::Found {
                            snapshot: stored.snapshot,
                            revision: stored.revision,
                        },
                        None => RegistrationEventView::Empty,
                    },
                ),
                ..before
            })
        },
        JoiningStep::Write { who, revision, told } => {
            &&& before.has_sent(who)
            &&& if before.takes_from(who) {
                &&& before.stored matches Some(stored) ==> stored.revision < revision
                &&& before.registrants[who].state.phase matches RegistrationPhaseView::Writing {
                    snapshot,
                }
                &&& after.stored == Some(StoredDirectory { snapshot, revision })
                &&& after.registrants == before.going_on(
                    who,
                    if told {
                        RegistrationEventView::Stored
                    } else {
                        RegistrationEventView::Conflict
                    },
                )
            } else {
                after == (Joining {
                    registrants: before.going_on(who, RegistrationEventView::Conflict),
                    ..before
                })
            }
        },
        JoiningStep::Slept { who } => {
            &&& 0 <= who < before.registrants.len()
            &&& before.registrants[who].next is Sleep
            &&& after == (Joining {
                registrants: before.going_on(who, RegistrationEventView::Slept),
                ..before
            })
        },
    }
}

/// The states came about by these steps, from nothing.
pub open spec fn is_joining(states: Seq<Joining>, steps: Seq<JoiningStep>) -> bool {
    &&& states.len() == steps.len() + 1
    &&& states[0].stored is None
    &&& states[0].registrants.len() == 0
    &&& forall|i: int|
        0 <= i < steps.len() ==> joining_step(states[i], #[trigger] steps[i], states[i + 1])
}

/// The directory has all nodes that the other has, none at an earlier
/// generation, and it is no older.
pub open spec fn keeps(earlier: SnapshotView, later: SnapshotView) -> bool {
    &&& earlier.version <= later.version
    &&& forall|id: Seq<char>| #[trigger]
        earlier.nodes.dom().contains(id) ==> later.nodes.dom().contains(id)
            && earlier.nodes[id].generation <= later.nodes[id].generation
}

/// The node is in the directory, at its generation or a later one.
pub open spec fn is_listed(snapshot: SnapshotView, node: NodeView) -> bool {
    &&& snapshot.nodes.dom().contains(node.node_id)
    &&& node.generation <= snapshot.nodes[node.node_id].generation
}

/// What the registration sends was made of the directory that it read, and
/// where it is over, the node is listed.
spec fn is_sound(registrant: Registrant, stored: Option<StoredDirectory>) -> bool {
    let node = registrant.state.node;
    &&& registrant.next matches RegistrationAction::Update { revision } ==> {
        &&& stored matches Some(held)
        &&& revision <= held.revision
        &&& registrant.state.phase matches RegistrationPhaseView::Writing { snapshot }
        &&& is_listed(snapshot, node)
        &&& revision == held.revision ==> snapshot == membership::registered(held.snapshot, node)
    }
    &&& registrant.next is Create ==> registrant.state.phase == (RegistrationPhaseView::Writing {
        snapshot: first_directory(node),
    })
    &&& registrant.state.phase is Done ==> (stored matches Some(held) && is_listed(
        held.snapshot,
        node,
    ))
}

impl Joining {
    spec fn wf(self) -> bool {
        forall|i: int|
            0 <= i < self.registrants.len() ==> is_sound(
                #[trigger] self.registrants[i],
                self.stored,
            )
    }
}

proof fn lemma_registered_keeps(snapshot: SnapshotView, node: NodeView)
    ensures
        keeps(snapshot, membership::registered(snapshot, node)),
{
    assert forall|id: Seq<char>| #[trigger]
        snapshot.nodes.dom().contains(id) implies membership::registered(
        snapshot,
        node,
    ).nodes.dom().contains(id) && snapshot.nodes[id].generation <= membership::registered(
        snapshot,
        node,
    ).nodes[id].generation by {
        membership::registration_never_goes_back(snapshot, node, id);
    }
}

proof fn lemma_joining_step(before: Joining, step: JoiningStep, after: Joining)
    requires
        before.wf(),
        joining_step(before, step, after),
    ensures
        after.wf(),
        before.stored matches Some(earlier) ==> (after.stored matches Some(later) && keeps(
            earlier.snapshot,
            later.snapshot,
        )),
{
    match step {
        JoiningStep::Write { who, revision, told } => {
            let writer = before.registrants[who];
            assert(is_sound(writer, before.stored));
            if before.takes_from(who) {
                match before.stored {
                    Some(held) => {
                        lemma_registered_keeps(held.snapshot, writer.state.node);
                    },
                    None => {},
                }
            }
            assert forall|i: int| 0 <= i < after.registrants.len() implies is_sound(
                #[trigger] after.registrants[i],
                after.stored,
            ) by {
                if i != who {
                    assert(after.registrants[i] == before.registrants[i]);
                    assert(is_sound(before.registrants[i], before.stored));
                }
            }
        },
        JoiningStep::Read { who } => {
            let reader = before.registrants[who];
            assert(is_sound(reader, before.stored));
            assert forall|i: int| 0 <= i < after.registrants.len() implies is_sound(
                #[trigger] after.registrants[i],
                after.stored,
            ) by {
                if i != who {
                    assert(after.registrants[i] == before.registrants[i]);
                    assert(is_sound(before.registrants[i], before.stored));
                } else if reader.state.phase is Reading {
                    let event = match before.stored {
                        Some(stored) => RegistrationEventView::Found {
                            snapshot: stored.snapshot,
                            revision: stored.revision,
                        },
                        None => RegistrationEventView::Empty,
                    };
                    registration_ends_in_the_directory(reader.state, event);
                }
            }
        },
        JoiningStep::Slept { who } => {
            assert(is_sound(before.registrants[who], before.stored));
            assert forall|i: int| 0 <= i < after.registrants.len() implies is_sound(
                #[trigger] after.registrants[i],
                after.stored,
            ) by {
                if i != who {
                    assert(after.registrants[i] == before.registrants[i]);
                }
            }
        },
        JoiningStep::Begin { node } => {
            assert forall|i: int| 0 <= i < after.registrants.len() implies is_sound(
                #[trigger] after.registrants[i],
                after.stored,
            ) by {
                if i < before.registrants.len() {
                    assert(after.registrants[i] == before.registrants[i]);
                }
            }
        },
        JoiningStep::Initialize { snapshot, revision } => {
            assert forall|i: int| 0 <= i < after.registrants.len() implies is_sound(
                #[trigger] after.registrants[i],
                after.stored,
            ) by {
                assert(is_sound(before.registrants[i], before.stored));
            }
        },
    }
}

proof fn lemma_joining(states: Seq<Joining>, steps: Seq<JoiningStep>, n: int)
    requires
        is_joining(states, steps),
        0 <= n < states.len(),
    ensures
        states[n].wf(),
    decreases n,
{
    if n > 0 {
        lemma_joining(states, steps, n - 1);
        assert(joining_step(states[n - 1], steps[n - 1], states[n - 1 + 1]));
        lemma_joining_step(states[n - 1], steps[n - 1], states[n]);
    }
}

/// However many nodes register at once, and however their reads and writes
/// fall between one another, no node is lost from the directory, none falls
/// back to an earlier generation, and the version does not fall.
pub proof fn no_registration_is_lost(
    states: Seq<Joining>,
    steps: Seq<JoiningStep>,
    earlier: int,
    later: int,
)
    requires
        is_joining(states, steps),
        0 <= earlier <= later < states.len(),
        states[earlier].stored is Some,
    ensures
        states[later].stored matches Some(held) && keeps(
            states[earlier].stored->Some_0.snapshot,
            held.snapshot,
        ),
    decreases later - earlier,
{
    if earlier < later {
        no_registration_is_lost(states, steps, earlier, later - 1);
        lemma_joining(states, steps, later - 1);
        assert(joining_step(states[later - 1], steps[later - 1], states[later - 1 + 1]));
        lemma_joining_step(states[later - 1], steps[later - 1], states[later]);
        let first = states[earlier].stored->Some_0.snapshot;
        let middle = states[later - 1].stored->Some_0.snapshot;
        let last = states[later].stored->Some_0.snapshot;
        assert forall|id: Seq<char>| #[trigger]
            first.nodes.dom().contains(id) implies last.nodes.dom().contains(id)
            && first.nodes[id].generation <= last.nodes[id].generation by {
            assert(middle.nodes.dom().contains(id));
        }
    }
}

/// Once a node's registration is over, the node is in the directory, and stays
/// there.
pub proof fn registered_nodes_stay_listed(
    states: Seq<Joining>,
    steps: Seq<JoiningStep>,
    who: int,
    earlier: int,
    later: int,
)
    requires
        is_joining(states, steps),
        0 <= earlier <= later < states.len(),
        0 <= who < states[earlier].registrants.len(),
        states[earlier].registrants[who].state.phase is Done,
    ensures
        states[later].stored matches Some(held) && is_listed(
            held.snapshot,
            states[earlier].registrants[who].state.node,
        ),
{
    lemma_joining(states, steps, earlier);
    assert(is_sound(states[earlier].registrants[who], states[earlier].stored));
    no_registration_is_lost(states, steps, earlier, later);
}

/// The first directory has one node, as it is but for its first renewal.
pub proof fn the_first_directory_has_one_node(node: NodeView, id: Seq<char>)
    ensures
        ({
            let directory = first_directory(node);
            let entry = directory.nodes[node.node_id];
            &&& directory.version == 0
            &&& directory.nodes.dom().contains(id) <==> id == node.node_id
            &&& entry.lease_renewal_sequence == Some(1u64)
            &&& NodeView { lease_renewal_sequence: node.lease_renewal_sequence, ..entry } == node
        }),
{
}

/// A registration that has read the directory replaces the revision that it
/// read, unless the directory has nothing to take in, and starts one where
/// there is none.
pub proof fn registrations_replace_what_they_read(
    state: RegistrationView,
    snapshot: SnapshotView,
    revision: u64,
)
    requires
        state.phase is Reading,
    ensures
        ({
            let updated = membership::registered(snapshot, state.node);
            let (next, action) = registration_step(
                state,
                RegistrationEventView::Found { snapshot, revision },
            );
            let (first, created) = registration_step(state, RegistrationEventView::Empty);
            &&& next.node == state.node
            &&& next.attempt == state.attempt
            &&& updated == snapshot ==> action is Finish && next.phase == (
            RegistrationPhaseView::Done { snapshot })
            &&& updated != snapshot ==> action == (RegistrationAction::Update { revision })
                && next.phase == (RegistrationPhaseView::Writing { snapshot: updated })
            &&& created is Create
            &&& first.node == state.node
            &&& first.attempt == state.attempt
            &&& first.phase == (RegistrationPhaseView::Writing {
                snapshot: first_directory(state.node),
            })
        }),
{
}

/// A directory that was stored ends the registration with that directory. After
/// a conflict it waits, and reads the directory again, ten times in all.
pub proof fn conflicts_lead_back_to_reading(state: RegistrationView, snapshot: SnapshotView)
    requires
        state.phase == (RegistrationPhaseView::Writing { snapshot }),
        state.attempt < 10,
    ensures
        ({
            let (stored, finished) = registration_step(state, RegistrationEventView::Stored);
            let (waiting, slept) = registration_step(state, RegistrationEventView::Conflict);
            let (again, action) = registration_step(waiting, RegistrationEventView::Slept);
            &&& finished is Finish
            &&& stored.phase == (RegistrationPhaseView::Done { snapshot })
            &&& slept == (RegistrationAction::Sleep { millis: retry::wait_after(state.attempt) })
            &&& again.node == state.node
            &&& state.attempt < 9 ==> {
                &&& action is Read
                &&& again.phase is Reading
                &&& again.attempt == state.attempt + 1
            }
            &&& state.attempt == 9 ==> {
                &&& action is Fail
                &&& again.phase is Failed
            }
        }),
{
}

/// What does not belong to where a registration stands changes nothing.
pub proof fn stray_events_leave_the_registration(
    state: RegistrationView,
    event: RegistrationEventView,
)
    ensures
        registration_step(state, event).1 is Ignore <==> !({
            ||| state.phase is Reading && (event is Found || event is Empty)
            ||| state.phase is Writing && (event is Stored || event is Conflict)
            ||| state.phase is Waiting && event is Slept
        }),
        registration_step(state, event).1 is Ignore ==> registration_step(state, event).0 == state,
{
}

} // verus!
