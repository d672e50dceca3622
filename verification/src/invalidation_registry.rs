//! The registration and replay state machine of one invalidation owner, and
//! the deduplicating inbox of a subscription host.

use vstd::prelude::*;

use crate::invalidation;
use crate::invalidation::{
    EventView, IdentityView, InvalidationCursor, InvalidationEvent, InvalidationIdentity,
    InvalidationOwnerId, InvalidationRegistration, InvalidationRegistryError,
    InvalidationUnregistration, RegistrationReplay, RegistrationView, ReplayView,
    UnregistrationView, INVALIDATION_OWNERSHIP_PROTOCOL_VERSION,
};
use crate::ordered::SortedMap;
use crate::text;

verus! {

/// The last accepted message for one registration id.
#[derive(Clone, Debug)]
enum InvalidationRegistrationState {
    Active(InvalidationRegistration),
    Tombstone(InvalidationUnregistration),
}

/// An applied event with the output of its first application.
///
/// The output is part of replay history and must not be recomputed from later
/// registration state.
#[derive(Clone, Debug)]
struct RetainedInvalidationEvent {
    event: InvalidationEvent,
    invalidations: Vec<InvalidationIdentity>,
}

/// What the registry holds for one registration id.
pub enum RegistrationStateView {
    Active(RegistrationView),
    Tombstone(UnregistrationView),
}

/// What the registry holds of one applied event.
pub struct RetainedView {
    pub event: EventView,
    pub invalidations: Seq<IdentityView>,
}

/// What an [`InvalidationOwnerRegistry`] stands for.
pub struct RegistryView {
    pub owner_id: Seq<char>,
    pub catalog_version: u64,
    pub cursor: u64,
    pub owner_sequence: u64,
    pub retained_from_exclusive: u64,
    pub retained_from_owner_sequence_exclusive: u64,
    pub max_replay_events: nat,
    pub events: Seq<RetainedView>,
    pub registrations: Map<Seq<char>, RegistrationStateView>,
}

impl RegistrationStateView {
    pub open spec fn generation(self) -> u64 {
        match self {
            RegistrationStateView::Active(registration) => registration.generation,
            RegistrationStateView::Tombstone(unregistration) => unregistration.generation,
        }
    }

    pub open spec fn registration_id(self) -> Seq<char> {
        match self {
            RegistrationStateView::Active(registration) => registration.registration_id,
            RegistrationStateView::Tombstone(unregistration) => unregistration.registration_id,
        }
    }
}

impl View for InvalidationRegistrationState {
    type V = RegistrationStateView;

    closed spec fn view(&self) -> RegistrationStateView {
        match *self {
            InvalidationRegistrationState::Active(r) => RegistrationStateView::Active(r@),
            InvalidationRegistrationState::Tombstone(u) => RegistrationStateView::Tombstone(u@),
        }
    }
}

impl View for RetainedInvalidationEvent {
    type V = RetainedView;

    closed spec fn view(&self) -> RetainedView {
        RetainedView {
            event: self.event@,
            invalidations: invalidation::identity_views(self.invalidations@),
        }
    }
}

impl RegistryView {
    /// The retained events are the last ones applied, in sequence order, and
    /// the retention marks name exactly what was dropped before them.
    pub open spec fn journal_wf(self) -> bool {
        &&& 0 < self.max_replay_events
        &&& self.events.len() <= self.max_replay_events
        &&& self.retained_from_owner_sequence_exclusive + self.events.len() == self.owner_sequence
        &&& forall|i: int|
            0 <= i < self.events.len() ==> {
                &&& (#[trigger] self.events[i]).event.owner_sequence
                    == self.retained_from_owner_sequence_exclusive + 1 + i
                &&& self.events[i].event.owner_id == self.owner_id
                &&& self.retained_from_exclusive < self.events[i].event.commit_cursor
                    <= self.cursor
            }
        &&& forall|i: int, j: int|
            0 <= i < j < self.events.len() ==> (#[trigger] self.events[i]).event.commit_cursor < (
            #[trigger] self.events[j]).event.commit_cursor
        &&& if self.events.len() == 0 {
            self.retained_from_exclusive == self.cursor
        } else {
            self.events.last().event.commit_cursor == self.cursor
        }
    }

    /// Each id maps to a message that names it, and no registration was
    /// evaluated past what the owner has applied.
    pub open spec fn registrations_wf(self) -> bool {
        forall|id: Seq<char>| #[trigger]
            self.registrations.dom().contains(id) ==> {
                &&& self.registrations[id].registration_id() == id
                &&& self.registrations[id] matches RegistrationStateView::Active(r)
                    ==> r.evaluation_cursor <= self.cursor
            }
    }

    pub open spec fn wf(self) -> bool {
        self.journal_wf() && self.registrations_wf()
    }
}

/// The error owed to a message that this owner does not speak for.
pub open spec fn contract_error(
    r: RegistryView,
    protocol_version: u16,
    owner_id: Seq<char>,
    catalog_version: u64,
) -> Option<InvalidationRegistryError> {
    if protocol_version != INVALIDATION_OWNERSHIP_PROTOCOL_VERSION {
        Some(InvalidationRegistryError::UnsupportedProtocol { received: protocol_version })
    } else if owner_id != r.owner_id {
        Some(InvalidationRegistryError::WrongOwner)
    } else if catalog_version != r.catalog_version {
        Some(
            InvalidationRegistryError::CatalogVersionMismatch {
                expected: r.catalog_version,
                received: catalog_version,
            },
        )
    } else {
        None
    }
}

/// The error owed to `registration`, in the order in which the checks apply.
pub open spec fn register_error(
    r: RegistryView,
    registration: RegistrationView,
) -> Option<InvalidationRegistryError> {
    let id = registration.registration_id;
    let known = r.registrations.dom().contains(id);
    let current = r.registrations[id];
    let contract = contract_error(
        r,
        registration.protocol_version,
        registration.owner_id,
        registration.catalog_version,
    );
    if contract is Some {
        contract
    } else if known && registration.generation < current.generation() {
        Some(
            InvalidationRegistryError::StaleRegistrationGeneration {
                current: current.generation(),
                received: registration.generation,
            },
        )
    } else if known && registration.generation == current.generation() && current
        != RegistrationStateView::Active(registration) {
        Some(
            InvalidationRegistryError::RegistrationGenerationCollision {
                generation: registration.generation,
            },
        )
    } else if r.cursor < registration.evaluation_cursor {
        Some(
            InvalidationRegistryError::OwnerBehind {
                owner_cursor: InvalidationCursor(r.cursor),
                evaluation_cursor: InvalidationCursor(registration.evaluation_cursor),
            },
        )
    } else if registration.evaluation_cursor < r.retained_from_exclusive {
        Some(
            InvalidationRegistryError::ReplayGap {
                retained_from_exclusive: InvalidationCursor(r.retained_from_exclusive),
                evaluation_cursor: InvalidationCursor(registration.evaluation_cursor),
            },
        )
    } else {
        None
    }
}

/// The registry after an accepted registration.
pub open spec fn registered(r: RegistryView, registration: RegistrationView) -> RegistryView {
    RegistryView {
        registrations: r.registrations.insert(
            registration.registration_id,
            RegistrationStateView::Active(registration),
        ),
        ..r
    }
}

/// A retained event that a registration has to be told of when it is
/// installed: committed after the evaluation, and matching.
pub open spec fn is_replayed_to(
    registration: RegistrationView,
    cursor: u64,
) -> spec_fn(RetainedView) -> bool {
    |retained: RetainedView|
        registration.evaluation_cursor < retained.event.commit_cursor
            && retained.event.commit_cursor <= cursor && invalidation::event_matches(
            retained.event,
            registration.dependencies,
        )
}

/// The replay that an accepted registration gets: the retained events that
/// concern it, in sequence order.
pub open spec fn replay_of(r: RegistryView, registration: RegistrationView) -> ReplayView {
    ReplayView {
        from_exclusive: registration.evaluation_cursor,
        through_inclusive: r.cursor,
        through_owner_sequence_inclusive: r.owner_sequence,
        invalidations: r.events.filter(is_replayed_to(registration, r.cursor)).map_values(
            |retained: RetainedView| invalidation::identity_of(registration, retained.event),
        ),
    }
}

/// The error owed to `unregistration`.
pub open spec fn unregister_error(
    r: RegistryView,
    unregistration: UnregistrationView,
) -> Option<InvalidationRegistryError> {
    let id = unregistration.registration_id;
    let known = r.registrations.dom().contains(id);
    let current = r.registrations[id];
    let contract = contract_error(
        r,
        unregistration.protocol_version,
        unregistration.owner_id,
        unregistration.catalog_version,
    );
    if contract is Some {
        contract
    } else if known && unregistration.generation < current.generation() {
        Some(
            InvalidationRegistryError::StaleRegistrationGeneration {
                current: current.generation(),
                received: unregistration.generation,
            },
        )
    } else if known && unregistration.generation == current.generation() && current is Tombstone
        && current != RegistrationStateView::Tombstone(unregistration) {
        Some(
            InvalidationRegistryError::RegistrationGenerationCollision {
                generation: unregistration.generation,
            },
        )
    } else {
        None
    }
}

/// The registry after an accepted unregistration.
pub open spec fn unregistered(
    r: RegistryView,
    unregistration: UnregistrationView,
) -> RegistryView {
    RegistryView {
        registrations: r.registrations.insert(
            unregistration.registration_id,
            RegistrationStateView::Tombstone(unregistration),
        ),
        ..r
    }
}

/// The retained event at an owner sequence inside the replay window.
pub open spec fn retained_at(r: RegistryView, owner_sequence: u64) -> RetainedView {
    r.events[owner_sequence - r.retained_from_owner_sequence_exclusive - 1]
}

/// The error owed to `event`, in the order in which the checks apply.
pub open spec fn apply_error(r: RegistryView, event: EventView) -> Option<
    InvalidationRegistryError,
> {
    let contract = contract_error(
        r,
        event.protocol_version,
        event.owner_id,
        event.catalog_version,
    );
    if contract is Some {
        contract
    } else if event.owner_sequence <= r.retained_from_owner_sequence_exclusive {
        Some(
            InvalidationRegistryError::EventOutsideReplayWindow {
                owner_sequence: event.owner_sequence,
                retained_from_owner_sequence_exclusive: r.retained_from_owner_sequence_exclusive,
            },
        )
    } else if event.owner_sequence <= r.owner_sequence {
        if retained_at(r, event.owner_sequence).event != event {
            Some(
                InvalidationRegistryError::EventIdentityCollision {
                    owner_sequence: event.owner_sequence,
                },
            )
        } else {
            None
        }
    } else if event.owner_sequence != r.owner_sequence + 1 || event.predecessor_owner_sequence
        != r.owner_sequence {
        Some(
            InvalidationRegistryError::OwnerSequenceGap {
                expected_sequence: (r.owner_sequence + 1) as u64,
                received_sequence: event.owner_sequence,
                expected_predecessor: r.owner_sequence,
                received_predecessor: event.predecessor_owner_sequence,
            },
        )
    } else if event.commit_cursor <= r.cursor {
        Some(
            InvalidationRegistryError::ReorderedCommitCursor {
                owner_cursor: InvalidationCursor(r.cursor),
                event_cursor: InvalidationCursor(event.commit_cursor),
            },
        )
    } else {
        None
    }
}

/// The registration under `id` is live and `event` invalidates it.
pub open spec fn is_invalidated(
    registrations: Map<Seq<char>, RegistrationStateView>,
    id: Seq<char>,
    event: EventView,
) -> bool {
    &&& registrations.dom().contains(id)
    &&& registrations[id] matches RegistrationStateView::Active(registration)
        && registration.evaluation_cursor < event.commit_cursor && invalidation::event_matches(
        event,
        registration.dependencies,
    )
}

/// `out` names each live registration that `event` invalidates, once, in the
/// order of the registration ids, and names nothing else.
pub open spec fn is_output_of(
    registrations: Map<Seq<char>, RegistrationStateView>,
    event: EventView,
    out: Seq<IdentityView>,
) -> bool {
    &&& forall|i: int, j: int|
        0 <= i < j < out.len() ==> text::text_before(
            (#[trigger] out[i]).registration_id,
            (#[trigger] out[j]).registration_id,
        )
    &&& forall|i: int|
        0 <= i < out.len() ==> is_invalidated(
            registrations,
            (#[trigger] out[i]).registration_id,
            event,
        ) && out[i] == invalidation::identity_of(
            registrations[out[i].registration_id]->Active_0,
            event,
        )
    &&& forall|id: Seq<char>| #[trigger]
        is_invalidated(registrations, id, event) ==> exists|i: int|
            0 <= i < out.len() && (#[trigger] out[i]).registration_id == id
}

/// The registry after a new event with its output: the event is journaled,
/// and the oldest one makes room where the journal is full.
pub open spec fn advanced(
    r: RegistryView,
    event: EventView,
    out: Seq<IdentityView>,
) -> RegistryView {
    let events = r.events.push(RetainedView { event, invalidations: out });
    if events.len() > r.max_replay_events {
        RegistryView {
            cursor: event.commit_cursor,
            owner_sequence: event.owner_sequence,
            retained_from_exclusive: events[0].event.commit_cursor,
            retained_from_owner_sequence_exclusive: events[0].event.owner_sequence,
            events: events.drop_first(),
            ..r
        }
    } else {
        RegistryView {
            cursor: event.commit_cursor,
            owner_sequence: event.owner_sequence,
            events,
            ..r
        }
    }
}

proof fn lemma_advanced_wf(r: RegistryView, event: EventView, out: Seq<IdentityView>)
    requires
        r.wf(),
        apply_error(r, event) is None,
        r.owner_sequence < event.owner_sequence,
    ensures
        advanced(r, event, out).wf(),
{
    let events = r.events.push(RetainedView { event, invalidations: out });
    let a = advanced(r, event, out);
    if events.len() > r.max_replay_events {
        assert forall|i: int| 0 <= i < a.events.len() implies (#[trigger] a.events[i])
            == events[i + 1] by {}
        if r.events.len() == 0 {
            assert(false);
        }
        assert(events[0] == r.events[0]);
        assert(a.events.last() == events.last());
    } else {
        assert(a.events.last() == events.last());
    }
}

/// An event has at most one output: the order and the content are fixed.
pub proof fn output_is_unique(
    registrations: Map<Seq<char>, RegistrationStateView>,
    event: EventView,
    a: Seq<IdentityView>,
    b: Seq<IdentityView>,
)
    requires
        is_output_of(registrations, event, a),
        is_output_of(registrations, event, b),
    ensures
        a == b,
{
    lemma_output_prefix(registrations, event, a, b, a.len() as int);
    lemma_output_prefix(registrations, event, b, a, b.len() as int);
    assert(a =~= b);
}

/// Below `n`, the outputs agree, and `b` is at least as long.
proof fn lemma_output_prefix(
    registrations: Map<Seq<char>, RegistrationStateView>,
    event: EventView,
    a: Seq<IdentityView>,
    b: Seq<IdentityView>,
    n: int,
)
    requires
        is_output_of(registrations, event, a),
        is_output_of(registrations, event, b),
        0 <= n <= a.len(),
    ensures
        n <= b.len(),
        forall|i: int| 0 <= i < n ==> a[i] == b[i],
    decreases n,
{
    if n > 0 {
        lemma_output_prefix(registrations, event, a, b, n - 1);
        let id = a[n - 1].registration_id;
        assert(is_invalidated(registrations, id, event));
        let k = choose|k: int| 0 <= k < b.len() && (#[trigger] b[k]).registration_id == id;
        text::text_order_is_total(id, id, id);
        if k < n - 1 {
            assert(text::text_before(a[k].registration_id, a[n - 1].registration_id));
            assert(false);
        }
        if k > n - 1 {
            let id2 = b[n - 1].registration_id;
            assert(text::text_before(id2, id));
            assert(is_invalidated(registrations, id2, event));
            let m = choose|m: int| 0 <= m < a.len() && (#[trigger] a[m]).registration_id == id2;
            text::text_order_is_total(id2, id, id2);
            if m < n - 1 {
                assert(b[m].registration_id == id2);
                assert(text::text_before(b[m].registration_id, b[n - 1].registration_id));
            } else if m > n - 1 {
                assert(text::text_before(a[n - 1].registration_id, a[m].registration_id));
            }
            assert(false);
        }
    }
}

/// A registration is told of every retained write that it reads and that
/// committed after its evaluation.
pub proof fn registration_misses_no_retained_write(
    r: RegistryView,
    registration: RegistrationView,
    i: int,
)
    requires
        r.wf(),
        register_error(r, registration) is None,
        0 <= i < r.events.len(),
        registration.evaluation_cursor < r.events[i].event.commit_cursor,
        invalidation::event_matches(r.events[i].event, registration.dependencies),
    ensures
        replay_of(r, registration).invalidations.contains(
            invalidation::identity_of(registration, r.events[i].event),
        ),
{
    let pred = is_replayed_to(registration, r.cursor);
    let kept = r.events.filter(pred);
    assert(pred(r.events[i]));
    r.events.lemma_filter_contains(pred, i);
    let k = choose|k: int| 0 <= k < kept.len() && kept[k] == r.events[i];
    let out = replay_of(r, registration).invalidations;
    assert(out[k] == invalidation::identity_of(registration, kept[k].event));
}

/// Every event after the evaluation of an accepted registration is retained
/// or still to come: the replay window reaches back to the evaluation.
pub proof fn accepted_registration_has_no_replay_gap(
    r: RegistryView,
    registration: RegistrationView,
)
    requires
        r.wf(),
        register_error(r, registration) is None,
    ensures
        r.retained_from_exclusive <= registration.evaluation_cursor <= r.cursor,
{
}

/// Once installed, a registration is told of the next event that it reads,
/// whatever that event's cursor.
pub proof fn installed_registration_sees_the_next_event(
    r: RegistryView,
    registration: RegistrationView,
    event: EventView,
    out: Seq<IdentityView>,
)
    requires
        r.wf(),
        register_error(r, registration) is None,
        apply_error(registered(r, registration), event) is None,
        r.owner_sequence < event.owner_sequence,
        invalidation::event_matches(event, registration.dependencies),
        is_output_of(registered(r, registration).registrations, event, out),
    ensures
        out.contains(invalidation::identity_of(registration, event)),
{
    let registrations = registered(r, registration).registrations;
    let id = registration.registration_id;
    assert(is_invalidated(registrations, id, event));
    let i = choose|i: int| 0 <= i < out.len() && (#[trigger] out[i]).registration_id == id;
    assert(out[i] == invalidation::identity_of(registration, event));
}

/// Making room in the journal drops only events at or below the retention
/// mark, and the mark never moves back.
pub proof fn eviction_moves_the_retention_mark(
    r: RegistryView,
    event: EventView,
    out: Seq<IdentityView>,
    i: int,
)
    requires
        r.wf(),
        apply_error(r, event) is None,
        r.owner_sequence < event.owner_sequence,
        0 <= i < r.events.len(),
    ensures
        advanced(r, event, out).retained_from_exclusive >= r.retained_from_exclusive,
        advanced(r, event, out).events.contains(r.events[i])
            || r.events[i].event.commit_cursor
            <= advanced(r, event, out).retained_from_exclusive,
{
    let events = r.events.push(RetainedView { event, invalidations: out });
    let a = advanced(r, event, out);
    assert(events[i] == r.events[i]);
    assert(events[0] == r.events[0]);
    if events.len() > r.max_replay_events {
        if i > 0 {
            assert(a.events[i - 1] == r.events[i]);
        }
    } else {
        assert(a.events[i] == r.events[i]);
    }
}

/// An event delivered again gets the output of its first application, whatever
/// registrations came or went meanwhile.
pub proof fn redelivered_event_gets_its_first_output(
    r: RegistryView,
    event: EventView,
    out: Seq<IdentityView>,
    registrations: Map<Seq<char>, RegistrationStateView>,
)
    requires
        r.wf(),
        apply_error(r, event) is None,
        r.owner_sequence < event.owner_sequence,
    ensures
        ({
            let later = RegistryView { registrations, ..advanced(r, event, out) };
            &&& event.owner_sequence <= later.owner_sequence
            &&& apply_error(later, event) is None
            &&& retained_at(later, event.owner_sequence).invalidations == out
        }),
{
    let events = r.events.push(RetainedView { event, invalidations: out });
    let a = advanced(r, event, out);
    lemma_advanced_wf(r, event, out);
    assert(a.events.last() == events.last());
    assert(retained_at(a, event.owner_sequence) == a.events.last());
}

/// No accepted message lowers the generation held for a registration id, and
/// none touches another id.
pub proof fn generations_never_go_back(
    r: RegistryView,
    registration: RegistrationView,
    unregistration: UnregistrationView,
    id: Seq<char>,
)
    requires
        r.registrations.dom().contains(id),
    ensures
        register_error(r, registration) is None ==> {
            let after = registered(r, registration).registrations;
            &&& after.dom().contains(id)
            &&& r.registrations[id].generation() <= after[id].generation()
            &&& id != registration.registration_id ==> after[id] == r.registrations[id]
        },
        unregister_error(r, unregistration) is None ==> {
            let after = unregistered(r, unregistration).registrations;
            &&& after.dom().contains(id)
            &&& r.registrations[id].generation() <= after[id].generation()
            &&& id != unregistration.registration_id ==> after[id] == r.registrations[id]
        },
{
}

/// A tombstone at a generation bars every registration up to that generation.
pub proof fn tombstone_bars_older_registrations(
    r: RegistryView,
    unregistration: UnregistrationView,
    registration: RegistrationView,
)
    requires
        registration.registration_id == unregistration.registration_id,
        registration.generation <= unregistration.generation,
    ensures
        register_error(unregistered(r, unregistration), registration) is Some,
{
}

impl InvalidationRegistrationState {
    fn generation(&self) -> (g: u64)
        ensures
            g == self@.generation(),
    {
        match self {
            InvalidationRegistrationState::Active(registration) => registration.generation,
            InvalidationRegistrationState::Tombstone(unregistration) => unregistration.generation,
        }
    }

    fn active(&self) -> (r: Option<&InvalidationRegistration>)
        ensures
            match r {
                Some(registration) => self@ == RegistrationStateView::Active(registration@),
                None => self@ is Tombstone,
            },
    {
        match self {
            InvalidationRegistrationState::Active(registration) => Some(registration),
            InvalidationRegistrationState::Tombstone(_) => None,
        }
    }
}

/// Bounded, single-owner registration and replay state machine.
///
/// Callers must serialize access to this value. `register` installs the live
/// registration and computes replay under the same mutable borrow as
/// `apply_event`, which closes the evaluate-to-register blind spot.
pub struct InvalidationOwnerRegistry {
    owner_id: InvalidationOwnerId,
    catalog_version: u64,
    cursor: InvalidationCursor,
    owner_sequence: u64,
    retained_from_exclusive: InvalidationCursor,
    retained_from_owner_sequence_exclusive: u64,
    max_replay_events: usize,
    events: Vec<RetainedInvalidationEvent>,
    registration_states: SortedMap<String, InvalidationRegistrationState>,
}

/// The identities of a list, one for one.
fn duplicate_identities(list: &Vec<InvalidationIdentity>) -> (r: Vec<InvalidationIdentity>)
    ensures
        invalidation::identity_views(r@) == invalidation::identity_views(list@),
{
    let mut out: Vec<InvalidationIdentity> = Vec::new();
    let mut i: usize = 0;
    while i < list.len()
        invariant
            i <= list@.len(),
            out@.len() == i,
            forall|k: int| 0 <= k < i ==> (#[trigger] out@[k])@ == list@[k]@,
        decreases list@.len() - i,
    {
        out.push(list[i].duplicate());
        i = i + 1;
    }
    assert(invalidation::identity_views(out@) =~= invalidation::identity_views(list@));
    out
}

impl View for InvalidationOwnerRegistry {
    type V = RegistryView;

    closed spec fn view(&self) -> RegistryView {
        RegistryView {
            owner_id: self.owner_id.0@,
            catalog_version: self.catalog_version,
            cursor: self.cursor.0,
            owner_sequence: self.owner_sequence,
            retained_from_exclusive: self.retained_from_exclusive.0,
            retained_from_owner_sequence_exclusive: self.retained_from_owner_sequence_exclusive,
            max_replay_events: self.max_replay_events as nat,
            events: Seq::new(self.events@.len(), |i: int| self.events@[i]@),
            registrations: self.registration_states@.map_values(
                |s: InvalidationRegistrationState| s@,
            ),
        }
    }
}

impl InvalidationOwnerRegistry {
    /// The journal is contiguous and bounded, and the registrations are filed
    /// under their own ids.
    pub closed spec fn wf(&self) -> bool {
        self.registration_states.wf() && self@.wf()
    }

    /// What the registry stands for is well formed.
    pub proof fn view_is_wf(&self)
        requires
            self.wf(),
        ensures
            self@.wf(),
    {
    }

    pub fn new(
        owner_id: InvalidationOwnerId,
        catalog_version: u64,
        initial_cursor: InvalidationCursor,
        initial_owner_sequence: u64,
        max_replay_events: usize,
    ) -> (r: Self)
        requires
            max_replay_events > 0,
        ensures
            r.wf(),
            r@ == (RegistryView {
                owner_id: owner_id.0@,
                catalog_version,
                cursor: initial_cursor.0,
                owner_sequence: initial_owner_sequence,
                retained_from_exclusive: initial_cursor.0,
                retained_from_owner_sequence_exclusive: initial_owner_sequence,
                max_replay_events: max_replay_events as nat,
                events: Seq::empty(),
                registrations: Map::empty(),
            }),
    {
        let r = InvalidationOwnerRegistry {
            owner_id,
            catalog_version,
            cursor: initial_cursor,
            owner_sequence: initial_owner_sequence,
            retained_from_exclusive: initial_cursor,
            retained_from_owner_sequence_exclusive: initial_owner_sequence,
            max_replay_events,
            events: Vec::new(),
            registration_states: SortedMap::new(),
        };
        proof {
            assert(r@.events =~= Seq::<RetainedView>::empty());
            assert(r@.registrations =~= Map::<Seq<char>, RegistrationStateView>::empty());
        }
        r
    }

    fn validate_protocol_and_catalog(
        &self,
        protocol_version: u16,
        owner_id: &InvalidationOwnerId,
        catalog_version: u64,
    ) -> (r: Option<InvalidationRegistryError>)
        ensures
            r == contract_error(self@, protocol_version, owner_id.0@, catalog_version),
    {
        if protocol_version != INVALIDATION_OWNERSHIP_PROTOCOL_VERSION {
            return Some(
                InvalidationRegistryError::UnsupportedProtocol { received: protocol_version },
            );
        }
        if owner_id.0 != self.owner_id.0 {
            return Some(InvalidationRegistryError::WrongOwner);
        }
        if catalog_version != self.catalog_version {
            return Some(
                InvalidationRegistryError::CatalogVersionMismatch {
                    expected: self.catalog_version,
                    received: catalog_version,
                },
            );
        }
        None
    }

    /// Installs a registration, and replays to it the retained events that
    /// committed after its evaluation.
    pub fn register(&mut self, registration: InvalidationRegistration) -> (r: Result<
        RegistrationReplay,
        InvalidationRegistryError,
    >)
        requires
            old(self).wf(),
        ensures
            final(self).wf(),
            match r {
                Err(error) => {
                    &&& register_error(old(self)@, registration@) == Some(error)
                    &&& final(self)@ == old(self)@
                },
                Ok(replay) => {
                    &&& register_error(old(self)@, registration@) is None
                    &&& final(self)@ == registered(old(self)@, registration@)
                    &&& replay@ == replay_of(old(self)@, registration@)
                },
            },
    {
        if let Some(error) = self.validate_protocol_and_catalog(
            registration.protocol_version,
            &registration.owner_id,
            registration.catalog_version,
        ) {
            return Err(error);
        }
        if let Some(current) = self.registration_states.get(&registration.registration_id.0) {
            if registration.generation < current.generation() {
                return Err(
                    InvalidationRegistryError::StaleRegistrationGeneration {
                        current: current.generation(),
                        received: registration.generation,
                    },
                );
            }
            if registration.generation == current.generation() {
                let identical = match current {
                    InvalidationRegistrationState::Active(current) => current.same(&registration),
                    InvalidationRegistrationState::Tombstone(_) => false,
                };
                if !identical {
                    return Err(
                        InvalidationRegistryError::RegistrationGenerationCollision {
                            generation: registration.generation,
                        },
                    );
                }
            }
        }
        if self.cursor.0 < registration.evaluation_cursor.0 {
            return Err(
                InvalidationRegistryError::OwnerBehind {
                    owner_cursor: self.cursor,
                    evaluation_cursor: registration.evaluation_cursor,
                },
            );
        }
        if registration.evaluation_cursor.0 < self.retained_from_exclusive.0 {
            return Err(
                InvalidationRegistryError::ReplayGap {
                    retained_from_exclusive: self.retained_from_exclusive,
                    evaluation_cursor: registration.evaluation_cursor,
                },
            );
        }
        let from_exclusive = registration.evaluation_cursor;
        let through_inclusive = self.cursor;
        let invalidations = self.replay(&registration);
        let through_owner_sequence_inclusive: u64 = self.owner_sequence;
        let registration_id = registration.registration_id.0.clone();
        self.registration_states.insert(
            registration_id,
            InvalidationRegistrationState::Active(registration),
        );
        proof {
            assert(self@.registrations =~= registered(old(self)@, registration@).registrations);
        }
        Ok(
            RegistrationReplay {
                from_exclusive,
                through_inclusive,
                through_owner_sequence_inclusive,
                invalidations,
            },
        )
    }

    /// The retained events that concern the registration, in sequence order.
    fn replay(&self, registration: &InvalidationRegistration) -> (r: Vec<InvalidationIdentity>)
        ensures
            invalidation::identity_views(r@) == replay_of(self@, registration@).invalidations,
    {
        let ghost pred = is_replayed_to(registration@, self.cursor.0);
        let ghost name = |retained: RetainedView|
            invalidation::identity_of(registration@, retained.event);
        let ghost events = self@.events;
        let mut out: Vec<InvalidationIdentity> = Vec::new();
        let mut i: usize = 0;
        proof {
            assert(events.take(0) =~= Seq::<RetainedView>::empty());
            assert(events.take(0).filter(pred) =~= Seq::<RetainedView>::empty()) by {
                reveal(Seq::filter);
            }
            assert(invalidation::identity_views(out@) =~= events.take(0).filter(pred).map_values(
                name,
            ));
        }
        while i < self.events.len()
            invariant
                i <= self.events@.len(),
                events == self@.events,
                pred == is_replayed_to(registration@, self.cursor.0),
                name == (|retained: RetainedView|
                    invalidation::identity_of(registration@, retained.event)),
                invalidation::identity_views(out@) == events.take(i as int).filter(
                    pred,
                ).map_values(name),
            decreases self.events@.len() - i,
        {
            let retained = &self.events[i];
            let ghost before = out@;
            proof {
                assert(events[i as int] == retained@);
                assert(events.take(i + 1).drop_last() =~= events.take(i as int));
                assert(events.take(i + 1).last() == retained@);
                reveal(Seq::filter);
            }
            if registration.evaluation_cursor.0 < retained.event.commit_cursor.0
                && retained.event.commit_cursor.0 <= self.cursor.0 && retained.event.matches(
                registration,
            ) {
                let identity = InvalidationIdentity::of(registration, &retained.event);
                out.push(identity);
                proof {
                    assert(pred(retained@));
                    assert(events.take(i + 1).filter(pred) == events.take(i as int).filter(
                        pred,
                    ).push(retained@));
                    assert(invalidation::identity_views(out@) =~= invalidation::identity_views(
                        before,
                    ).push(identity@));
                    assert(events.take(i + 1).filter(pred).map_values(name) =~= events.take(
                        i as int,
                    ).filter(pred).map_values(name).push(name(retained@)));
                }
            } else {
                assert(!pred(retained@));
            }
            i = i + 1;
        }
        assert(events.take(i as int) =~= events);
        out
    }

    /// Removes a registration, and remembers the removal.
    pub fn unregister(&mut self, unregistration: InvalidationUnregistration) -> (r: Result<
        (),
        InvalidationRegistryError,
    >)
        requires
            old(self).wf(),
        ensures
            final(self).wf(),
            match r {
                Err(error) => {
                    &&& unregister_error(old(self)@, unregistration@) == Some(error)
                    &&& final(self)@ == old(self)@
                },
                Ok(_) => {
                    &&& unregister_error(old(self)@, unregistration@) is None
                    &&& final(self)@ == unregistered(old(self)@, unregistration@)
                },
            },
    {
        if let Some(error) = self.validate_protocol_and_catalog(
            unregistration.protocol_version,
            &unregistration.owner_id,
            unregistration.catalog_version,
        ) {
            return Err(error);
        }
        if let Some(current) = self.registration_states.get(&unregistration.registration_id.0) {
            if unregistration.generation < current.generation() {
                return Err(
                    InvalidationRegistryError::StaleRegistrationGeneration {
                        current: current.generation(),
                        received: unregistration.generation,
                    },
                );
            }
            if unregistration.generation == current.generation() {
                match current {
                    InvalidationRegistrationState::Active(_) => {},
                    InvalidationRegistrationState::Tombstone(current) => {
                        if current.same(&unregistration) {
                            proof {
                                assert(self@.registrations =~= unregistered(
                                    self@,
                                    unregistration@,
                                ).registrations);
                            }
                            return Ok(());
                        }
                        return Err(
                            InvalidationRegistryError::RegistrationGenerationCollision {
                                generation: unregistration.generation,
                            },
                        );
                    },
                }
            }
        }
        let registration_id = unregistration.registration_id.0.clone();
        self.registration_states.insert(
            registration_id,
            InvalidationRegistrationState::Tombstone(unregistration),
        );
        proof {
            assert(self@.registrations =~= unregistered(old(self)@, unregistration@).registrations);
        }
        Ok(())
    }

    /// Applies the owner's next event, or answers a redelivered one from the
    /// journal.
    pub fn apply_event(&mut self, event: InvalidationEvent) -> (r: Result<
        Vec<InvalidationIdentity>,
        InvalidationRegistryError,
    >)
        requires
            old(self).wf(),
        ensures
            final(self).wf(),
            match r {
                Err(error) => {
                    &&& apply_error(old(self)@, event@) == Some(error)
                    &&& final(self)@ == old(self)@
                },
                Ok(out) => {
                    let out = invalidation::identity_views(out@);
                    &&& apply_error(old(self)@, event@) is None
                    &&& if event@.owner_sequence <= old(self)@.owner_sequence {
                        &&& out == retained_at(old(self)@, event@.owner_sequence).invalidations
                        &&& final(self)@ == old(self)@
                    } else {
                        &&& is_output_of(old(self)@.registrations, event@, out)
                        &&& final(self)@ == advanced(old(self)@, event@, out)
                    }
                },
            },
    {
        if let Some(error) = self.validate_protocol_and_catalog(
            event.protocol_version,
            &event.event_id.owner_id,
            event.catalog_version,
        ) {
            return Err(error);
        }
        let owner_sequence: u64 = event.event_id.owner_sequence;
        if owner_sequence <= self.owner_sequence {
            if owner_sequence <= self.retained_from_owner_sequence_exclusive {
                return Err(
                    InvalidationRegistryError::EventOutsideReplayWindow {
                        owner_sequence,
                        retained_from_owner_sequence_exclusive: self.retained_from_owner_sequence_exclusive,
                    },
                );
            }
            let position: usize = (owner_sequence - self.retained_from_owner_sequence_exclusive
                - 1) as usize;
            let retained = &self.events[position];
            assert(retained@ == retained_at(self@, owner_sequence));
            if retained.event.same(&event) {
                return Ok(duplicate_identities(&retained.invalidations));
            }
            return Err(InvalidationRegistryError::EventIdentityCollision { owner_sequence });
        }
        let expected_sequence: u64 = self.owner_sequence + 1;
        if owner_sequence != expected_sequence || event.predecessor_owner_sequence
            != self.owner_sequence {
            return Err(
                InvalidationRegistryError::OwnerSequenceGap {
                    expected_sequence,
                    received_sequence: owner_sequence,
                    expected_predecessor: self.owner_sequence,
                    received_predecessor: event.predecessor_owner_sequence,
                },
            );
        }
        if event.commit_cursor.0 <= self.cursor.0 {
            return Err(
                InvalidationRegistryError::ReorderedCommitCursor {
                    owner_cursor: self.cursor,
                    event_cursor: event.commit_cursor,
                },
            );
        }
        let invalidations = self.invalidation_identities_for_event(&event);
        let journaled = duplicate_identities(&invalidations);
        let ghost out = invalidation::identity_views(invalidations@);
        self.cursor = event.commit_cursor;
        self.owner_sequence = owner_sequence;
        self.events.push(RetainedInvalidationEvent { event, invalidations: journaled });
        proof {
            let pushed = old(self)@.events.push(RetainedView { event: event@, invalidations: out });
            assert(self@.events =~= pushed);
            if old(self)@.events.len() > 0 {
                assert(pushed[0] == old(self)@.events[0]);
            }
        }
        self.enforce_replay_bound();
        proof {
            lemma_advanced_wf(old(self)@, event@, out);
            assert(self@.events =~= advanced(old(self)@, event@, out).events);
            assert(self@ == advanced(old(self)@, event@, out));
        }
        Ok(invalidations)
    }

    /// Drops the oldest event where the journal holds one too many.
    fn enforce_replay_bound(&mut self)
        requires
            old(self)@.events.len() <= old(self)@.max_replay_events + 1,
            0 < old(self)@.max_replay_events,
            old(self).registration_states.wf(),
            old(self)@.events.len() > old(self)@.max_replay_events ==> {
                &&& old(self)@.retained_from_exclusive <= old(self)@.events[0].event.commit_cursor
                &&& old(self)@.retained_from_owner_sequence_exclusive
                    <= old(self)@.events[0].event.owner_sequence
            },
        ensures
            final(self).registration_states.wf(),
            final(self)@ == (if old(self)@.events.len() > old(self)@.max_replay_events {
                RegistryView {
                    retained_from_exclusive: old(self)@.events[0].event.commit_cursor,
                    retained_from_owner_sequence_exclusive: old(
                        self,
                    )@.events[0].event.owner_sequence,
                    events: old(self)@.events.drop_first(),
                    ..old(self)@
                }
            } else {
                old(self)@
            }),
    {
        if self.events.len() > self.max_replay_events {
            let evicted = self.events.remove(0);
            assert(evicted@ == old(self)@.events[0]);
            if self.retained_from_exclusive.0 < evicted.event.commit_cursor.0 {
                self.retained_from_exclusive = evicted.event.commit_cursor;
            }
            if self.retained_from_owner_sequence_exclusive < evicted.event.event_id.owner_sequence {
                self.retained_from_owner_sequence_exclusive =
                evicted.event.event_id.owner_sequence;
            }
            assert(self@.events =~= old(self)@.events.drop_first());
        }
    }

    /// The identities of the live registrations that the event invalidates,
    /// in the order of their ids.
    fn invalidation_identities_for_event(&self, event: &InvalidationEvent) -> (r: Vec<
        InvalidationIdentity,
    >)
        requires
            self.registration_states.wf(),
            self@.registrations_wf(),
        ensures
            is_output_of(self@.registrations, event@, invalidation::identity_views(r@)),
    {
        let states = &self.registration_states;
        let ghost registrations = self@.registrations;
        let ghost keys = states.keys();
        let mut out: Vec<InvalidationIdentity> = Vec::new();
        let ghost mut from: Seq<int> = Seq::empty();
        let mut i: usize = 0;
        proof {
            states.entries_agree();
        }
        while i < states.len()
            invariant
                *states == self.registration_states,
                states.wf(),
                registrations == self@.registrations,
                self@.registrations_wf(),
                keys == states.keys(),
                keys.len() == states.values().len(),
                i <= keys.len(),
                forall|m: Seq<char>| states@.dom().contains(m) <==> keys.contains(m),
                forall|k: int|
                    0 <= k < keys.len() ==> states@.dom().contains(#[trigger] keys[k])
                        && states@[keys[k]] == states.values()[k],
                out@.len() == from.len(),
                forall|a: int| 0 <= a < from.len() ==> 0 <= #[trigger] from[a] < i,
                forall|a: int, b: int|
                    0 <= a < b < from.len() ==> #[trigger] from[a] < #[trigger] from[b],
                forall|a: int|
                    0 <= a < from.len() ==> {
                        &&& (#[trigger] out@[a])@.registration_id == keys[from[a]]
                        &&& is_invalidated(registrations, keys[from[a]], event@)
                        &&& out@[a]@ == invalidation::identity_of(
                            registrations[keys[from[a]]]->Active_0,
                            event@,
                        )
                    },
                forall|k: int|
                    0 <= k < i && is_invalidated(
                        registrations,
                        #[trigger] keys[k],
                        event@,
                    ) ==> from.contains(k),
            decreases keys.len() - i,
        {
            let state = states.value_at(i);
            let ghost before = from;
            let ghost earlier = out@;
            assert(registrations[keys[i as int]] == state@);
            assert(registrations.dom().contains(keys[i as int]));
            assert(registrations[keys[i as int]].registration_id() == keys[i as int]);
            if let Some(registration) = state.active() {
                if registration.evaluation_cursor.0 < event.commit_cursor.0 && event.matches(
                    registration,
                ) {
                    out.push(InvalidationIdentity::of(registration, event));
                    proof {
                        let pushed = out@.last()@;
                        from = from.push(i as int);
                        assert(pushed.registration_id == keys[i as int]);
                        assert(state@ == RegistrationStateView::Active(registration@));
                        assert(is_invalidated(registrations, keys[i as int], event@));
                        assert forall|k: int|
                            0 <= k < i + 1 && is_invalidated(
                                registrations,
                                #[trigger] keys[k],
                                event@,
                            ) implies from.contains(k) by {
                            if k == i {
                                assert(from[from.len() - 1] == k);
                            } else {
                                assert(before.contains(k));
                                let a = before.index_of(k);
                                assert(from[a] == k);
                            }
                        }
                    }
                }
            }
            proof {
                assert forall|a: int| 0 <= a < from.len() implies {
                    &&& (#[trigger] out@[a])@.registration_id == keys[from[a]]
                    &&& is_invalidated(registrations, keys[from[a]], event@)
                    &&& out@[a]@ == invalidation::identity_of(
                        registrations[keys[from[a]]]->Active_0,
                        event@,
                    )
                } by {
                    if a < before.len() {
                        assert(from[a] == before[a]);
                        assert(out@[a] == earlier[a]);
                    }
                }
            }
            i = i + 1;
        }
        proof {
            let views = invalidation::identity_views(out@);
            assert forall|a: int, b: int| 0 <= a < b < views.len() implies text::text_before(
                (#[trigger] views[a]).registration_id,
                (#[trigger] views[b]).registration_id,
            ) by {
                assert(views[a] == out@[a]@ && views[b] == out@[b]@);
                assert(from[a] < from[b]);
            }
            assert forall|a: int| 0 <= a < views.len() implies is_invalidated(
                registrations,
                (#[trigger] views[a]).registration_id,
                event@,
            ) && views[a] == invalidation::identity_of(
                registrations[views[a].registration_id]->Active_0,
                event@,
            ) by {
                assert(views[a] == out@[a]@);
            }
            assert forall|id: Seq<char>| #[trigger]
                is_invalidated(registrations, id, event@) implies exists|a: int|
                0 <= a < views.len() && (#[trigger] views[a]).registration_id == id by {
                assert(states@.dom().contains(id));
                assert(keys.contains(id));
                let k = keys.index_of(id);
                assert(keys[k] == id);
                assert(from.contains(k));
                let a = from.index_of(k);
                assert(views[a] == out@[a]@);
            }
        }
        out
    }
}

/// Subscription-host deduplicator. Invalidation order is intentionally
/// irrelevant: each identity is an idempotent signal to rerun at a newer safe
/// snapshot.
pub struct InvalidationInbox {
    max_seen: usize,
    seen: Vec<InvalidationIdentity>,
}

/// What an [`InvalidationInbox`] holds: the remembered identities, oldest
/// first, and how many it may remember.
pub struct InboxView {
    pub max_seen: nat,
    pub seen: Seq<IdentityView>,
}

impl View for InvalidationInbox {
    type V = InboxView;

    closed spec fn view(&self) -> InboxView {
        InboxView {
            max_seen: self.max_seen as nat,
            seen: invalidation::identity_views(self.seen@),
        }
    }
}

impl InboxView {
    /// Nothing is remembered twice, and no more than the bound.
    pub open spec fn wf(self) -> bool {
        0 < self.max_seen && self.seen.len() <= self.max_seen && self.seen.no_duplicates()
    }

    /// The inbox after a new identity: remembered last, the oldest forgotten
    /// where there is one too many.
    pub open spec fn remember(self, identity: IdentityView) -> InboxView {
        let seen = self.seen.push(identity);
        InboxView {
            seen: if seen.len() > self.max_seen {
                seen.drop_first()
            } else {
                seen
            },
            ..self
        }
    }
}

/// A newly accepted identity is remembered, and while there is room, so are the
/// earlier ones.
pub proof fn accepted_identity_is_refused_next(inbox: InboxView, identity: IdentityView)
    requires
        inbox.wf(),
        !inbox.seen.contains(identity),
    ensures
        inbox.remember(identity).wf(),
        inbox.remember(identity).seen.contains(identity),
        inbox.seen.len() < inbox.max_seen ==> forall|other: IdentityView|
            inbox.seen.contains(other) ==> inbox.remember(identity).seen.contains(other),
{
    let pushed = inbox.seen.push(identity);
    let after = inbox.remember(identity);
    assert(after.seen[after.seen.len() - 1] == identity);
    assert(pushed.no_duplicates());
    if pushed.len() > inbox.max_seen {
        assert forall|i: int, j: int|
            0 <= i < after.seen.len() && 0 <= j < after.seen.len() && i
                != j implies after.seen[i] != after.seen[j] by {
            assert(after.seen[i] == pushed[i + 1] && after.seen[j] == pushed[j + 1]);
        }
    } else {
        assert forall|other: IdentityView| inbox.seen.contains(other) implies after.seen.contains(
            other,
        ) by {
            let k = inbox.seen.index_of(other);
            assert(after.seen[k] == other);
        }
    }
}

impl InvalidationInbox {
    pub closed spec fn wf(&self) -> bool {
        self@.wf()
    }

    /// What the inbox stands for is well formed.
    pub proof fn view_is_wf(&self)
        requires
            self.wf(),
        ensures
            self@.wf(),
    {
    }

    pub fn new(max_seen: usize) -> (r: Self)
        requires
            max_seen > 0,
        ensures
            r.wf(),
            r@ == (InboxView { max_seen: max_seen as nat, seen: Seq::empty() }),
    {
        let r = InvalidationInbox { max_seen, seen: Vec::new() };
        assert(r@.seen =~= Seq::<IdentityView>::empty());
        r
    }

    /// Returns true only for the first delivery of this invalidation identity.
    /// Once an identity ages out, accepting it again can only cause a safe
    /// duplicate query rerun.
    pub fn accept(&mut self, identity: InvalidationIdentity) -> (r: bool)
        requires
            old(self).wf(),
        ensures
            final(self).wf(),
            r == !old(self)@.seen.contains(identity@),
            final(self)@ == (if r {
                old(self)@.remember(identity@)
            } else {
                old(self)@
            }),
    {
        let mut i: usize = 0;
        while i < self.seen.len()
            invariant
                *self == *old(self),
                self.wf(),
                i <= self.seen@.len(),
                forall|k: int| 0 <= k < i ==> (#[trigger] self.seen@[k])@ != identity@,
            decreases self.seen@.len() - i,
        {
            if self.seen[i].same(&identity) {
                assert(self@.seen[i as int] == identity@);
                return false;
            }
            i = i + 1;
        }
        proof {
            assert forall|k: int| 0 <= k < self@.seen.len() implies self@.seen[k] != identity@ by {
                assert(self@.seen[k] == self.seen@[k]@);
            }
            accepted_identity_is_refused_next(old(self)@, identity@);
        }
        self.seen.push(identity);
        if self.seen.len() > self.max_seen {
            let evicted = self.seen.remove(0);
        }
        assert(self@.seen =~= old(self)@.remember(identity@).seen);
        true
    }
}

/// A registration is accepted exactly where it speaks this protocol to this
/// owner in this catalog version, is newer than what is held under its id or the
/// very registration that is held, and was evaluated no later than what the
/// owner has applied and no earlier than what it still retains.
pub proof fn registrations_are_accepted_on_these_terms(
    r: RegistryView,
    registration: RegistrationView,
)
    ensures
        register_error(r, registration) is None <==> {
            &&& registration.protocol_version == 1
            &&& registration.owner_id == r.owner_id
            &&& registration.catalog_version == r.catalog_version
            &&& r.registrations.dom().contains(registration.registration_id) ==> match
                r.registrations[registration.registration_id] {
                RegistrationStateView::Active(held) => held.generation < registration.generation
                    || held == registration,
                RegistrationStateView::Tombstone(held) => held.generation
                    < registration.generation,
            }
            &&& r.retained_from_exclusive <= registration.evaluation_cursor <= r.cursor
        },
{
}

/// A removal is accepted exactly where it speaks this protocol to this owner in
/// this catalog version, and nothing newer is held under its id, nor another
/// removal of the same generation.
pub proof fn removals_are_accepted_on_these_terms(r: RegistryView, removal: UnregistrationView)
    ensures
        unregister_error(r, removal) is None <==> {
            &&& removal.protocol_version == 1
            &&& removal.owner_id == r.owner_id
            &&& removal.catalog_version == r.catalog_version
            &&& r.registrations.dom().contains(removal.registration_id) ==> match
                r.registrations[removal.registration_id] {
                RegistrationStateView::Active(held) => held.generation <= removal.generation,
                RegistrationStateView::Tombstone(held) => held.generation < removal.generation
                    || held == removal,
            }
        },
{
}

/// An event is accepted exactly where it speaks this protocol for this owner in
/// this catalog version, and is either the next in sequence, behind the last one
/// and with a later cursor, or one that is retained, just as it was.
pub proof fn events_are_accepted_on_these_terms(r: RegistryView, event: EventView)
    requires
        r.wf(),
    ensures
        apply_error(r, event) is None <==> {
            &&& event.protocol_version == 1
            &&& event.owner_id == r.owner_id
            &&& event.catalog_version == r.catalog_version
            &&& {
                ||| event.owner_sequence == r.owner_sequence + 1 && event.predecessor_owner_sequence
                    == r.owner_sequence && r.cursor < event.commit_cursor
                ||| exists|i: int| 0 <= i < r.events.len() && (#[trigger] r.events[i]).event == event
            }
        },
{
    let mark = r.retained_from_owner_sequence_exclusive;
    if exists|i: int| 0 <= i < r.events.len() && (#[trigger] r.events[i]).event == event {
        let i = choose|i: int|
            0 <= i < r.events.len() && (#[trigger] r.events[i]).event == event;
        assert(r.events[i].event.owner_sequence == mark + 1 + i);
    }
    if mark < event.owner_sequence <= r.owner_sequence && retained_at(
        r,
        event.owner_sequence,
    ).event == event {
        assert(r.events[event.owner_sequence - mark - 1].event == event);
    }
}

/// A refused message is told what is wrong with it: first the protocol, then the
/// owner, then the catalog version.
pub proof fn contract_refusals_name_their_cause(
    r: RegistryView,
    protocol_version: u16,
    owner_id: Seq<char>,
    catalog_version: u64,
)
    ensures
        ({
            let error = contract_error(r, protocol_version, owner_id, catalog_version);
            &&& protocol_version != 1 ==> error == Some(
                InvalidationRegistryError::UnsupportedProtocol { received: protocol_version },
            )
            &&& protocol_version == 1 && owner_id != r.owner_id ==> error == Some(
                InvalidationRegistryError::WrongOwner,
            )
            &&& protocol_version == 1 && owner_id == r.owner_id && catalog_version
                != r.catalog_version ==> error == Some(
                InvalidationRegistryError::CatalogVersionMismatch {
                    expected: r.catalog_version,
                    received: catalog_version,
                },
            )
            &&& protocol_version == 1 && owner_id == r.owner_id && catalog_version
                == r.catalog_version ==> error is None
        }),
{
}

/// A registration that is refused though it speaks for this owner is told what
/// is wrong: that it is older than what is held, that another has its
/// generation, that the owner is behind it, or that what it would need is gone.
pub proof fn registration_refusals_name_their_cause(
    r: RegistryView,
    registration: RegistrationView,
)
    requires
        registration.protocol_version == 1,
        registration.owner_id == r.owner_id,
        registration.catalog_version == r.catalog_version,
    ensures
        ({
            let error = register_error(r, registration);
            let id = registration.registration_id;
            let held = r.registrations[id];
            let generation = match held {
                RegistrationStateView::Active(a) => a.generation,
                RegistrationStateView::Tombstone(t) => t.generation,
            };
            let known = r.registrations.dom().contains(id);
            let stale = known && registration.generation < generation;
            let taken = known && registration.generation == generation && held
                != RegistrationStateView::Active(registration);
            &&& stale ==> error == Some(
                InvalidationRegistryError::StaleRegistrationGeneration {
                    current: generation,
                    received: registration.generation,
                },
            )
            &&& taken ==> error == Some(
                InvalidationRegistryError::RegistrationGenerationCollision {
                    generation: registration.generation,
                },
            )
            &&& !stale && !taken && r.cursor < registration.evaluation_cursor ==> error == Some(
                InvalidationRegistryError::OwnerBehind {
                    owner_cursor: InvalidationCursor(r.cursor),
                    evaluation_cursor: InvalidationCursor(registration.evaluation_cursor),
                },
            )
            &&& !stale && !taken && registration.evaluation_cursor <= r.cursor
                && registration.evaluation_cursor < r.retained_from_exclusive ==> error == Some(
                InvalidationRegistryError::ReplayGap {
                    retained_from_exclusive: InvalidationCursor(r.retained_from_exclusive),
                    evaluation_cursor: InvalidationCursor(registration.evaluation_cursor),
                },
            )
        }),
{
}

/// An event that is refused though it speaks for this owner is told what is
/// wrong: that it is older than what is retained, that another event has its
/// place, that it does not follow the last one, or that its cursor goes back.
pub proof fn event_refusals_name_their_cause(r: RegistryView, event: EventView)
    requires
        r.wf(),
        event.protocol_version == 1,
        event.owner_id == r.owner_id,
        event.catalog_version == r.catalog_version,
    ensures
        ({
            let error = apply_error(r, event);
            let mark = r.owner_sequence - r.events.len();
            &&& event.owner_sequence <= mark ==> error == Some(
                InvalidationRegistryError::EventOutsideReplayWindow {
                    owner_sequence: event.owner_sequence,
                    retained_from_owner_sequence_exclusive: mark as u64,
                },
            )
            &&& mark < event.owner_sequence <= r.owner_sequence && r.events[event.owner_sequence
                - mark - 1].event != event ==> error == Some(
                InvalidationRegistryError::EventIdentityCollision {
                    owner_sequence: event.owner_sequence,
                },
            )
            &&& r.owner_sequence < event.owner_sequence && (event.owner_sequence
                != r.owner_sequence + 1 || event.predecessor_owner_sequence != r.owner_sequence)
                ==> error == Some(
                InvalidationRegistryError::OwnerSequenceGap {
                    expected_sequence: (r.owner_sequence + 1) as u64,
                    received_sequence: event.owner_sequence,
                    expected_predecessor: r.owner_sequence,
                    received_predecessor: event.predecessor_owner_sequence,
                },
            )
            &&& event.owner_sequence == r.owner_sequence + 1 && event.predecessor_owner_sequence
                == r.owner_sequence && event.commit_cursor <= r.cursor ==> error == Some(
                InvalidationRegistryError::ReorderedCommitCursor {
                    owner_cursor: InvalidationCursor(r.cursor),
                    event_cursor: InvalidationCursor(event.commit_cursor),
                },
            )
        }),
{
}

/// An accepted message changes what is held under its own id and nothing else:
/// neither another id, nor the journal, nor how far the owner has come.
pub proof fn messages_change_their_own_entry(
    r: RegistryView,
    registration: RegistrationView,
    removal: UnregistrationView,
    id: Seq<char>,
)
    ensures
        ({
            let after = registered(r, registration);
            &&& after.registrations.dom().contains(registration.registration_id)
            &&& after.registrations[registration.registration_id]
                == RegistrationStateView::Active(registration)
            &&& id != registration.registration_id ==> (after.registrations.dom().contains(id)
                <==> r.registrations.dom().contains(id)) && after.registrations[id]
                == r.registrations[id]
            &&& after == (RegistryView { registrations: after.registrations, ..r })
        }),
        ({
            let after = unregistered(r, removal);
            &&& after.registrations.dom().contains(removal.registration_id)
            &&& after.registrations[removal.registration_id] == RegistrationStateView::Tombstone(
                removal,
            )
            &&& id != removal.registration_id ==> (after.registrations.dom().contains(id)
                <==> r.registrations.dom().contains(id)) && after.registrations[id]
                == r.registrations[id]
            &&& after == (RegistryView { registrations: after.registrations, ..r })
        }),
{
}

proof fn lemma_replay(
    registration: RegistrationView,
    cursor: u64,
    events: Seq<RetainedView>,
    k: int,
    l: int,
)
    requires
        forall|i: int, j: int|
            0 <= i < j < events.len() ==> (#[trigger] events[i]).event.owner_sequence < (
            #[trigger] events[j]).event.owner_sequence,
        0 <= k <= l < events.filter(is_replayed_to(registration, cursor)).len(),
    ensures
        ({
            let told = events.filter(is_replayed_to(registration, cursor));
            &&& exists|i: int| 0 <= i < events.len() && #[trigger] events[i] == told[k]
            &&& registration.evaluation_cursor < told[k].event.commit_cursor <= cursor
            &&& invalidation::event_matches(told[k].event, registration.dependencies)
            &&& k < l ==> told[k].event.owner_sequence < told[l].event.owner_sequence
        }),
    decreases events.len(),
{
    let p = is_replayed_to(registration, cursor);
    reveal(Seq::filter);
    let told = events.filter(p);
    let earlier = events.drop_last();
    let before = earlier.filter(p);
    assert(events.len() > 0);
    assert forall|i: int, j: int| 0 <= i < j < earlier.len() implies (
    #[trigger] earlier[i]).event.owner_sequence < (
    #[trigger] earlier[j]).event.owner_sequence by {
        assert(events[i].event.owner_sequence < events[j].event.owner_sequence);
    }
    if k < before.len() {
        let m = if l < before.len() {
            l
        } else {
            k
        };
        lemma_replay(registration, cursor, earlier, k, m);
        assert(told[k] == before[k]);
        let i = choose|i: int| 0 <= i < earlier.len() && #[trigger] earlier[i] == before[k];
        assert(events[i] == told[k]);
        if l == before.len() {
            assert(told[l] == events.last());
            assert(events[i].event.owner_sequence < events[events.len() - 1].event.owner_sequence);
        } else if k < l {
            assert(told[l] == before[l]);
        }
    } else {
        assert(told[k] == events.last());
        assert(events[events.len() - 1] == told[k]);
        assert(p(told[k]));
    }
}

/// A registration is told only of events that committed after its evaluation and
/// that it reads, each under its own identity and in the order of the owner's
/// sequence, and of how far the replay reaches.
pub proof fn replay_tells_of_nothing_else(
    r: RegistryView,
    registration: RegistrationView,
    k: int,
    l: int,
)
    requires
        r.wf(),
        0 <= k <= l < replay_of(r, registration).invalidations.len(),
    ensures
        ({
            let replay = replay_of(r, registration);
            &&& replay.from_exclusive == registration.evaluation_cursor
            &&& replay.through_inclusive == r.cursor
            &&& replay.through_owner_sequence_inclusive == r.owner_sequence
            &&& exists|i: int|
                0 <= i < r.events.len() && replay.invalidations[k] == invalidation::identity_of(
                    registration,
                    (#[trigger] r.events[i]).event,
                ) && registration.evaluation_cursor < r.events[i].event.commit_cursor
                    && invalidation::event_matches(r.events[i].event, registration.dependencies)
            &&& k < l ==> replay.invalidations[k].owner_sequence
                < replay.invalidations[l].owner_sequence
        }),
{
    let told = r.events.filter(is_replayed_to(registration, r.cursor));
    assert forall|i: int, j: int| 0 <= i < j < r.events.len() implies (
    #[trigger] r.events[i]).event.owner_sequence < (
    #[trigger] r.events[j]).event.owner_sequence by {}
    lemma_replay(registration, r.cursor, r.events, k, l);
    let i = choose|i: int| 0 <= i < r.events.len() && #[trigger] r.events[i] == told[k];
    assert(r.events[i] == told[k]);
}

/// The range of a replay does not depend on what is in it.
pub proof fn replay_says_how_far_it_reaches(r: RegistryView, registration: RegistrationView)
    ensures
        replay_of(r, registration).from_exclusive == registration.evaluation_cursor,
        replay_of(r, registration).through_inclusive == r.cursor,
        replay_of(r, registration).through_owner_sequence_inclusive == r.owner_sequence,
{
}

/// An event is told to exactly those live registrations that were evaluated
/// before it and that it hits, to each once.
pub proof fn events_are_told_to_those_they_hit(
    r: RegistryView,
    event: EventView,
    out: Seq<IdentityView>,
    registration: RegistrationView,
)
    requires
        r.wf(),
        is_output_of(r.registrations, event, out),
        r.registrations.dom().contains(registration.registration_id),
        r.registrations[registration.registration_id] == RegistrationStateView::Active(
            registration,
        ),
    ensures
        out.contains(invalidation::identity_of(registration, event)) <==>
            registration.evaluation_cursor < event.commit_cursor && invalidation::event_matches(
            event,
            registration.dependencies,
        ),
        out.no_duplicates(),
        forall|i: int|
            0 <= i < out.len() ==> {
                &&& r.registrations.dom().contains((#[trigger] out[i]).registration_id)
                &&& r.registrations[out[i].registration_id] is Active
                &&& out[i].owner_sequence == event.owner_sequence
                &&& out[i].commit_cursor == event.commit_cursor
                &&& out[i].owner_id == event.owner_id
            },
{
    let id = registration.registration_id;
    let identity = invalidation::identity_of(registration, event);
    if registration.evaluation_cursor < event.commit_cursor && invalidation::event_matches(
        event,
        registration.dependencies,
    ) {
        assert(is_invalidated(r.registrations, id, event));
        let i = choose|i: int| 0 <= i < out.len() && (#[trigger] out[i]).registration_id == id;
        assert(out[i] == identity);
    }
    if out.contains(identity) {
        let i = out.index_of(identity);
        assert(is_invalidated(r.registrations, out[i].registration_id, event));
    }
    assert forall|i: int, j: int| 0 <= i < out.len() && 0 <= j < out.len() && i != j implies out[i]
        != out[j] by {
        let (a, b) = if i < j {
            (i, j)
        } else {
            (j, i)
        };
        assert(text::text_before(out[a].registration_id, out[b].registration_id));
        text::text_order_is_total(out[a].registration_id, out[b].registration_id, Seq::empty());
    }
}

/// A new event is retained with what was told of it, behind those before it. The
/// journal holds as many as it may, and where it is full the oldest goes and the
/// marks move up to it.
pub proof fn journals_keep_the_newest_events(
    r: RegistryView,
    event: EventView,
    out: Seq<IdentityView>,
    i: int,
)
    requires
        r.wf(),
        0 <= i < r.events.len(),
    ensures
        ({
            let after = advanced(r, event, out);
            let full = r.events.len() == r.max_replay_events;
            &&& after.events.last() == (RetainedView { event, invalidations: out })
            &&& after.events.len() == (if full {
                r.events.len()
            } else {
                r.events.len() + 1
            })
            &&& !full ==> after.events[i] == r.events[i] && after.retained_from_exclusive
                == r.retained_from_exclusive && after.retained_from_owner_sequence_exclusive
                == r.retained_from_owner_sequence_exclusive
            &&& full && i > 0 ==> after.events[i - 1] == r.events[i]
            &&& full ==> after.retained_from_exclusive == r.events[0].event.commit_cursor
                && after.retained_from_owner_sequence_exclusive
                == r.events[0].event.owner_sequence
            &&& after.cursor == event.commit_cursor
            &&& after.owner_sequence == event.owner_sequence
            &&& after.registrations == r.registrations
            &&& after.owner_id == r.owner_id
            &&& after.catalog_version == r.catalog_version
            &&& after.max_replay_events == r.max_replay_events
        }),
{
}

/// The first event of an empty journal is retained, whatever its bound.
pub proof fn an_empty_journal_takes_the_event(
    r: RegistryView,
    event: EventView,
    out: Seq<IdentityView>,
)
    requires
        r.wf(),
        r.events.len() == 0,
    ensures
        advanced(r, event, out).events == seq![RetainedView { event, invalidations: out }],
        advanced(r, event, out).cursor == event.commit_cursor,
        advanced(r, event, out).owner_sequence == event.owner_sequence,
        advanced(r, event, out).retained_from_exclusive == r.retained_from_exclusive,
        advanced(r, event, out).registrations == r.registrations,
{
    assert(r.events =~= Seq::empty());
}

/// An inbox forgets the oldest identity where it is full, and nothing else.
pub proof fn inboxes_forget_the_oldest(
    inbox: InboxView,
    identity: IdentityView,
    other: IdentityView,
)
    requires
        inbox.wf(),
        !inbox.seen.contains(identity),
    ensures
        inbox.remember(identity).max_seen == inbox.max_seen,
        inbox.remember(identity).seen.contains(other) <==> other == identity || (
        inbox.seen.contains(other) && !(inbox.seen.len() == inbox.max_seen && other
            == inbox.seen[0])),
{
    let after = inbox.remember(identity).seen;
    let full = inbox.seen.len() == inbox.max_seen;
    let shift = if full {
        1int
    } else {
        0
    };
    assert(after[after.len() - 1] == identity);
    if inbox.seen.contains(other) {
        let i = inbox.seen.index_of(other);
        if !(full && i == 0) {
            assert(after[i - shift] == other);
        }
    }
    if after.contains(other) && other != identity {
        let i = after.index_of(other);
        assert(inbox.seen[i + shift] == other);
    }
}

} // verus!
