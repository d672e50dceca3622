//! What holds of an invalidation owner, and of the inbox of a subscription host,
//! over any number of calls.

use vstd::prelude::*;

use crate::invalidation;
use crate::invalidation::{
    EventView, IdentityView, InvalidationRegistryError, RegistrationView, UnregistrationView,
};
use crate::invalidation_registry;
use crate::invalidation_registry::{
    InboxView, RegistrationStateView, RegistryView, RetainedView,
};

verus! {

/// A call of an owner.
pub enum OwnerCall {
    Register(RegistrationView),
    Unregister(UnregistrationView),
    /// An event, and what was answered where it was accepted.
    Apply { event: EventView, out: Seq<IdentityView> },
}

/// The owner accepts the call.
pub open spec fn accepts(r: RegistryView, call: OwnerCall) -> bool {
    match call {
        OwnerCall::Register(registration) => invalidation_registry::register_error(
            r,
            registration,
        ) is None,
        OwnerCall::Unregister(unregistration) => invalidation_registry::unregister_error(
            r,
            unregistration,
        ) is None,
        OwnerCall::Apply { event, out } => invalidation_registry::apply_error(r, event) is None,
    }
}

/// The event has not been applied yet.
pub open spec fn is_new(r: RegistryView, event: EventView) -> bool {
    r.owner_sequence < event.owner_sequence
}

/// What the call makes of the owner, as [`register`], [`unregister`] and
/// [`apply_event`] have it. A refused call changes nothing.
///
/// [`register`]: crate::invalidation_registry::InvalidationOwnerRegistry::register
/// [`unregister`]: crate::invalidation_registry::InvalidationOwnerRegistry::unregister
/// [`apply_event`]: crate::invalidation_registry::InvalidationOwnerRegistry::apply_event
pub open spec fn follows(before: RegistryView, call: OwnerCall, after: RegistryView) -> bool {
    if !accepts(before, call) {
        after == before
    } else {
        match call {
            OwnerCall::Register(registration) => after == invalidation_registry::registered(
                before,
                registration,
            ),
            OwnerCall::Unregister(unregistration) => after == invalidation_registry::unregistered(
                before,
                unregistration,
            ),
            OwnerCall::Apply { event, out } => if is_new(before, event) {
                &&& invalidation_registry::is_output_of(before.registrations, event, out)
                &&& after == invalidation_registry::advanced(before, event, out)
            } else {
                &&& out == invalidation_registry::retained_at(
                    before,
                    event.owner_sequence,
                ).invalidations
                &&& after == before
            },
        }
    }
}

/// The owner was in these states, one after the other, by these calls.
pub open spec fn is_history(states: Seq<RegistryView>, calls: Seq<OwnerCall>) -> bool {
    &&& states.len() == calls.len() + 1
    &&& states[0].wf()
    &&& forall|i: int|
        0 <= i < calls.len() ==> follows(states[i], #[trigger] calls[i], states[i + 1])
}

/// The two states are of one owner.
spec fn same_owner(a: RegistryView, b: RegistryView) -> bool {
    &&& a.owner_id == b.owner_id
    &&& a.catalog_version == b.catalog_version
    &&& a.max_replay_events == b.max_replay_events
}

proof fn lemma_step(before: RegistryView, call: OwnerCall, after: RegistryView)
    requires
        before.wf(),
        follows(before, call, after),
    ensures
        after.wf(),
        same_owner(before, after),
        before.owner_sequence <= after.owner_sequence,
        before.cursor <= after.cursor,
{
    match call {
        OwnerCall::Apply { event, out } if accepts(before, call) && is_new(before, event) => {
            let pushed = before.events.push(RetainedView { event, invalidations: out });
            assert(after.journal_wf()) by {
                assert forall|i: int| 0 <= i < after.events.len() implies {
                    &&& (#[trigger] after.events[i]).event.owner_sequence
                        == after.retained_from_owner_sequence_exclusive + 1 + i
                    &&& after.events[i].event.owner_id == after.owner_id
                    &&& after.retained_from_exclusive < after.events[i].event.commit_cursor
                        <= after.cursor
                } by {
                    if pushed.len() > before.max_replay_events {
                        assert(after.events[i] == pushed[i + 1]);
                        if i + 1 < before.events.len() {
                            assert(pushed[i + 1] == before.events[i + 1]);
                        }
                        if 0 < before.events.len() {
                            assert(pushed[0] == before.events[0]);
                        }
                    } else {
                        assert(after.events[i] == pushed[i]);
                        if i < before.events.len() {
                            assert(pushed[i] == before.events[i]);
                        }
                    }
                }
                assert forall|i: int, j: int| 0 <= i < j < after.events.len() implies (
                #[trigger] after.events[i]).event.commit_cursor < (
                #[trigger] after.events[j]).event.commit_cursor by {
                    if pushed.len() > before.max_replay_events {
                        assert(after.events[i] == before.events[i + 1]);
                        if j + 1 < before.events.len() {
                            assert(after.events[j] == before.events[j + 1]);
                        }
                    } else {
                        assert(after.events[i] == before.events[i]);
                        if j < before.events.len() {
                            assert(after.events[j] == before.events[j]);
                        }
                    }
                }
            }
        },
        _ => {},
    }
}

proof fn lemma_history(states: Seq<RegistryView>, calls: Seq<OwnerCall>, n: int)
    requires
        is_history(states, calls),
        0 <= n < states.len(),
    ensures
        states[n].wf(),
        same_owner(states[0], states[n]),
    decreases n,
{
    if n > 0 {
        lemma_history(states, calls, n - 1);
        assert(follows(states[n - 1], calls[n - 1], states[n - 1 + 1]));
        lemma_step(states[n - 1], calls[n - 1], states[n]);
    }
}

/// An owner that is well formed stays so, and stays the same owner.
pub proof fn owner_stays_well_formed(states: Seq<RegistryView>, calls: Seq<OwnerCall>, n: int)
    requires
        is_history(states, calls),
        0 <= n < states.len(),
    ensures
        states[n].wf(),
        states[n].owner_id == states[0].owner_id,
        states[n].catalog_version == states[0].catalog_version,
        states[n].max_replay_events == states[0].max_replay_events,
{
    lemma_history(states, calls, n);
}

/// The event has been applied with that answer: it is retained, or it is
/// behind the marks of what was dropped.
spec fn is_known(r: RegistryView, event: EventView, out: Seq<IdentityView>) -> bool {
    &&& event.owner_sequence <= r.owner_sequence
    &&& event.commit_cursor <= r.cursor
    &&& if r.retained_from_owner_sequence_exclusive < event.owner_sequence {
        invalidation_registry::retained_at(r, event.owner_sequence) == (RetainedView {
            event,
            invalidations: out,
        })
    } else {
        event.commit_cursor <= r.retained_from_exclusive
    }
}

proof fn lemma_applied_is_known(
    before: RegistryView,
    event: EventView,
    out: Seq<IdentityView>,
    after: RegistryView,
)
    requires
        before.wf(),
        accepts(before, OwnerCall::Apply { event, out }),
        follows(before, OwnerCall::Apply { event, out }, after),
    ensures
        is_known(after, event, out),
{
    if is_new(before, event) {
        let pushed = before.events.push(RetainedView { event, invalidations: out });
        if pushed.len() > before.max_replay_events {
            assert(after.events[after.events.len() - 1] == pushed[pushed.len() - 1]);
            if 0 < before.events.len() {
                assert(pushed[0] == before.events[0]);
            }
        }
    } else {
        let i = event.owner_sequence - before.retained_from_owner_sequence_exclusive - 1;
        assert(before.events[i].event == event);
    }
}

proof fn lemma_known_stays(
    before: RegistryView,
    call: OwnerCall,
    after: RegistryView,
    event: EventView,
    out: Seq<IdentityView>,
)
    requires
        before.wf(),
        follows(before, call, after),
        is_known(before, event, out),
    ensures
        is_known(after, event, out),
{
    match call {
        OwnerCall::Apply { event: next, out: answer } if accepts(before, call) && is_new(
            before,
            next,
        ) => {
            let pushed = before.events.push(RetainedView { event: next, invalidations: answer });
            let from = before.retained_from_owner_sequence_exclusive;
            if 0 < before.events.len() {
                assert(pushed[0] == before.events[0]);
            }
            if from < event.owner_sequence {
                let i = event.owner_sequence - from - 1;
                assert(pushed[i] == before.events[i]);
                if pushed.len() > before.max_replay_events && i > 0 {
                    assert(after.events[i - 1] == pushed[i]);
                }
            }
        },
        _ => {},
    }
}

proof fn lemma_known_from(
    states: Seq<RegistryView>,
    calls: Seq<OwnerCall>,
    event: EventView,
    out: Seq<IdentityView>,
    from: int,
    n: int,
)
    requires
        is_history(states, calls),
        0 <= from <= n < states.len(),
        is_known(states[from], event, out),
    ensures
        is_known(states[n], event, out),
    decreases n - from,
{
    if from < n {
        lemma_known_from(states, calls, event, out, from, n - 1);
        lemma_history(states, calls, n - 1);
        assert(follows(states[n - 1], calls[n - 1], states[n - 1 + 1]));
        lemma_known_stays(states[n - 1], calls[n - 1], states[n], event, out);
    }
}

proof fn lemma_call_is_known(
    states: Seq<RegistryView>,
    calls: Seq<OwnerCall>,
    event: EventView,
    out: Seq<IdentityView>,
    j: int,
    n: int,
)
    requires
        is_history(states, calls),
        0 <= j < n < states.len(),
        calls[j] == (OwnerCall::Apply { event, out }),
        accepts(states[j], calls[j]),
    ensures
        is_known(states[n], event, out),
{
    lemma_history(states, calls, j);
    assert(follows(states[j], calls[j], states[j + 1]));
    lemma_applied_is_known(states[j], event, out, states[j + 1]);
    lemma_known_from(states, calls, event, out, j + 1, n);
}

/// An event that was applied once is answered as it was then, whatever was
/// registered, unregistered or applied since, as long as it is in the replay
/// window. Outside it, the event is refused. Another event in its place is
/// refused too.
pub proof fn applied_event_keeps_its_answer(
    states: Seq<RegistryView>,
    calls: Seq<OwnerCall>,
    event: EventView,
    out: Seq<IdentityView>,
    j: int,
    other: EventView,
)
    requires
        is_history(states, calls),
        0 <= j < calls.len(),
        calls[j] == (OwnerCall::Apply { event, out }),
        accepts(states[j], calls[j]),
    ensures
        ({
            let now = states.last();
            let from = now.retained_from_owner_sequence_exclusive;
            &&& !is_new(now, event)
            &&& from < event.owner_sequence ==> {
                &&& invalidation_registry::apply_error(now, event) is None
                &&& invalidation_registry::retained_at(now, event.owner_sequence).invalidations
                    == out
            }
            &&& event.owner_sequence <= from ==> invalidation_registry::apply_error(now, event)
                == Some(
                InvalidationRegistryError::EventOutsideReplayWindow {
                    owner_sequence: event.owner_sequence,
                    retained_from_owner_sequence_exclusive: from,
                },
            )
            &&& from < event.owner_sequence && other != event && other.owner_id == event.owner_id
                && other.owner_sequence == event.owner_sequence && other.protocol_version
                == event.protocol_version && other.catalog_version == event.catalog_version
                ==> invalidation_registry::apply_error(now, other) == Some(
                InvalidationRegistryError::EventIdentityCollision {
                    owner_sequence: event.owner_sequence,
                },
            )
        }),
{
    let n = states.len() - 1;
    lemma_history(states, calls, j);
    lemma_history(states, calls, n);
    lemma_call_is_known(states, calls, event, out, j, n);
}

/// How many of the first `n` calls applied a new event.
pub open spec fn new_events(
    states: Seq<RegistryView>,
    calls: Seq<OwnerCall>,
    n: nat,
) -> nat
    decreases n,
{
    if n == 0 {
        0
    } else {
        let before = new_events(states, calls, (n - 1) as nat);
        match calls[n - 1] {
            OwnerCall::Apply { event, out } => if accepts(states[n - 1], calls[n - 1]) && is_new(
                states[n - 1],
                event,
            ) {
                before + 1
            } else {
                before
            },
            _ => before,
        }
    }
}

/// The smaller of two numbers.
pub open spec fn smaller(a: nat, b: nat) -> nat {
    if a < b {
        a
    } else {
        b
    }
}

/// The owner speaks for the event.
pub open spec fn speaks_for(r: RegistryView, event: EventView) -> bool {
    invalidation_registry::contract_error(
        r,
        event.protocol_version,
        event.owner_id,
        event.catalog_version,
    ) is None
}

proof fn lemma_window(states: Seq<RegistryView>, calls: Seq<OwnerCall>, n: nat)
    requires
        is_history(states, calls),
        states[0].events.len() == 0,
        n < states.len(),
    ensures
        states[n as int].owner_sequence == states[0].owner_sequence + new_events(states, calls, n),
        states[n as int].events.len() == smaller(
            new_events(states, calls, n),
            states[0].max_replay_events,
        ),
        forall|i: int|
            0 <= i < states[n as int].events.len() ==> speaks_for(
                states[0],
                (#[trigger] states[n as int].events[i]).event,
            ),
    decreases n,
{
    if n > 0 {
        lemma_window(states, calls, (n - 1) as nat);
        lemma_history(states, calls, n - 1);
        let before = states[n - 1];
        let after = states[n as int];
        assert(follows(states[n - 1], calls[n - 1], states[n - 1 + 1]));
        match calls[n - 1] {
            OwnerCall::Apply { event, out } if accepts(before, calls[n - 1]) && is_new(
                before,
                event,
            ) => {
                let pushed = before.events.push(RetainedView { event, invalidations: out });
                assert forall|i: int| 0 <= i < after.events.len() implies speaks_for(
                    states[0],
                    (#[trigger] after.events[i]).event,
                ) by {
                    let k = if pushed.len() > before.max_replay_events {
                        i + 1
                    } else {
                        i
                    };
                    assert(after.events[i] == pushed[k]);
                    if k < before.events.len() {
                        assert(pushed[k] == before.events[k]);
                    }
                }
            },
            _ => {},
        }
    }
}

/// After any number of new events, the newest ones are answered, as many as
/// the owner may keep, and no older one is.
pub proof fn newest_events_are_answered(
    states: Seq<RegistryView>,
    calls: Seq<OwnerCall>,
    event: EventView,
)
    requires
        is_history(states, calls),
        states[0].events.len() == 0,
        speaks_for(states[0], event),
    ensures
        ({
            let now = states.last();
            let count = new_events(states, calls, calls.len());
            let from = now.owner_sequence - smaller(count, states[0].max_replay_events);
            &&& now.owner_sequence == states[0].owner_sequence + count
            &&& now.retained_from_owner_sequence_exclusive == from
            &&& event.owner_sequence <= from ==> invalidation_registry::apply_error(now, event)
                == Some(
                InvalidationRegistryError::EventOutsideReplayWindow {
                    owner_sequence: event.owner_sequence,
                    retained_from_owner_sequence_exclusive: from as u64,
                },
            )
            &&& from < event.owner_sequence <= now.owner_sequence ==> {
                let kept = invalidation_registry::retained_at(now, event.owner_sequence).event;
                &&& kept.owner_sequence == event.owner_sequence
                &&& invalidation_registry::apply_error(now, kept) is None
                &&& invalidation_registry::apply_error(now, event) is None <==> event == kept
            }
        }),
{
    let n = calls.len();
    lemma_window(states, calls, n);
    lemma_history(states, calls, n as int);
    let now = states.last();
    let from = now.retained_from_owner_sequence_exclusive;
    if from < event.owner_sequence <= now.owner_sequence {
        let i = event.owner_sequence - from - 1;
        assert(speaks_for(states[0], now.events[i].event));
    }
}

/// The call changes what is held under the id.
pub open spec fn concerns(r: RegistryView, call: OwnerCall, id: Seq<char>) -> bool {
    accepts(r, call) && match call {
        OwnerCall::Register(registration) => registration.registration_id == id,
        OwnerCall::Unregister(unregistration) => unregistration.registration_id == id,
        OwnerCall::Apply { event, out } => false,
    }
}

proof fn lemma_untouched(
    states: Seq<RegistryView>,
    calls: Seq<OwnerCall>,
    id: Seq<char>,
    from: int,
    n: int,
)
    requires
        is_history(states, calls),
        0 <= from <= n < states.len(),
        states[from].registrations.dom().contains(id),
        forall|k: int| from <= k < n ==> !concerns(states[k], #[trigger] calls[k], id),
    ensures
        states[n].registrations.dom().contains(id),
        states[n].registrations[id] == states[from].registrations[id],
    decreases n - from,
{
    if from < n {
        lemma_untouched(states, calls, id, from, n - 1);
        assert(follows(states[n - 1], calls[n - 1], states[n - 1 + 1]));
        assert(!concerns(states[n - 1], calls[n - 1], id));
    }
}

/// A registration hears of every applied event that committed after its
/// evaluation and that it reads, and of no other: by the replay that it gets
/// where the event was applied before it, and by the answer to the event
/// where the event was applied later, as long as nothing else was registered
/// or unregistered under its id.
pub proof fn registration_hears_of_every_write(
    states: Seq<RegistryView>,
    calls: Seq<OwnerCall>,
    registration: RegistrationView,
    j: int,
    event: EventView,
    out: Seq<IdentityView>,
    m: int,
)
    requires
        is_history(states, calls),
        0 <= j < calls.len(),
        calls[j] == OwnerCall::Register(registration),
        accepts(states[j], calls[j]),
        0 <= m < calls.len(),
        calls[m] == (OwnerCall::Apply { event, out }),
        accepts(states[m], calls[m]),
        is_new(states[m], event),
        registration.evaluation_cursor < event.commit_cursor,
        forall|k: int|
            j < k < m ==> !concerns(
                states[k],
                #[trigger] calls[k],
                registration.registration_id,
            ),
    ensures
        m < j ==> (invalidation_registry::replay_of(
            states[j],
            registration,
        ).invalidations.contains(invalidation::identity_of(registration, event))
            <==> invalidation::event_matches(event, registration.dependencies)),
        j < m ==> (out.contains(invalidation::identity_of(registration, event))
            <==> invalidation::event_matches(event, registration.dependencies)),
{
    let wanted = invalidation::identity_of(registration, event);
    if m < j {
        let r = states[j];
        lemma_history(states, calls, j);
        lemma_call_is_known(states, calls, event, out, m, j);
        let at = event.owner_sequence - r.retained_from_owner_sequence_exclusive - 1;
        assert(r.events[at].event == event);
        let told = invalidation_registry::replay_of(r, registration).invalidations;
        if invalidation::event_matches(event, registration.dependencies) {
            invalidation_registry::registration_misses_no_retained_write(r, registration, at);
        }
        if told.contains(wanted) {
            let concerned = invalidation_registry::is_replayed_to(registration, r.cursor);
            let kept = r.events.filter(concerned);
            let k = told.index_of(wanted);
            assert(told[k] == invalidation::identity_of(registration, kept[k].event));
            r.events.lemma_filter_contains_rev(concerned, kept[k]);
            let i = r.events.index_of(kept[k]);
            assert(r.events[i] == kept[k]);
            assert(i == at);
            assert(concerned(kept[k]));
        }
    }
    if j < m {
        let id = registration.registration_id;
        assert(follows(states[j], calls[j], states[j + 1]));
        lemma_untouched(states, calls, id, j + 1, m);
        assert(follows(states[m], calls[m], states[m + 1]));
        let held = states[m].registrations;
        assert(held[id] == RegistrationStateView::Active(registration));
        if invalidation::event_matches(event, registration.dependencies) {
            assert(invalidation_registry::is_invalidated(held, id, event));
            let i = choose|i: int|
                0 <= i < out.len() && (#[trigger] out[i]).registration_id == id;
            assert(out[i] == wanted);
        }
        if out.contains(wanted) {
            let i = out.index_of(wanted);
            assert(out[i].registration_id == id);
            assert(invalidation_registry::is_invalidated(held, id, event));
        }
    }
}

/// The owner accepts a call for the id with a generation after the given one.
pub open spec fn supersedes(
    r: RegistryView,
    call: OwnerCall,
    id: Seq<char>,
    generation: u64,
) -> bool {
    concerns(r, call, id) && match call {
        OwnerCall::Register(registration) => generation < registration.generation,
        OwnerCall::Unregister(unregistration) => generation < unregistration.generation,
        OwnerCall::Apply { event, out } => false,
    }
}

proof fn lemma_tombstone_stays(
    states: Seq<RegistryView>,
    calls: Seq<OwnerCall>,
    u: UnregistrationView,
    from: int,
    n: int,
)
    requires
        is_history(states, calls),
        0 <= from <= n < states.len(),
        states[from].registrations.dom().contains(u.registration_id),
        states[from].registrations[u.registration_id] == RegistrationStateView::Tombstone(u),
        forall|k: int|
            from <= k < n ==> !supersedes(
                states[k],
                #[trigger] calls[k],
                u.registration_id,
                u.generation,
            ),
    ensures
        states[n].registrations.dom().contains(u.registration_id),
        states[n].registrations[u.registration_id] == RegistrationStateView::Tombstone(u),
    decreases n - from,
{
    if from < n {
        lemma_tombstone_stays(states, calls, u, from, n - 1);
        assert(follows(states[n - 1], calls[n - 1], states[n - 1 + 1]));
        assert(!supersedes(states[n - 1], calls[n - 1], u.registration_id, u.generation));
    }
}

/// Until a call with a later generation is accepted, an unregistered id stays
/// silent: no event names it, registrations up to its generation are refused,
/// and the same unregistration is accepted again and changes nothing.
pub proof fn tombstone_holds(
    states: Seq<RegistryView>,
    calls: Seq<OwnerCall>,
    unregistration: UnregistrationView,
    j: int,
    registration: RegistrationView,
    event: EventView,
    out: Seq<IdentityView>,
)
    requires
        is_history(states, calls),
        0 <= j < calls.len(),
        calls[j] == OwnerCall::Unregister(unregistration),
        accepts(states[j], calls[j]),
        forall|k: int|
            j < k < calls.len() ==> !supersedes(
                states[k],
                #[trigger] calls[k],
                unregistration.registration_id,
                unregistration.generation,
            ),
    ensures
        ({
            let now = states.last();
            let id = unregistration.registration_id;
            let spoken = invalidation_registry::contract_error(
                now,
                registration.protocol_version,
                registration.owner_id,
                registration.catalog_version,
            ) is None;
            &&& invalidation_registry::is_output_of(now.registrations, event, out) ==> forall|i: int|
                0 <= i < out.len() ==> (#[trigger] out[i]).registration_id != id
            &&& spoken && registration.registration_id == id && registration.generation
                < unregistration.generation ==> invalidation_registry::register_error(
                now,
                registration,
            ) == Some(
                InvalidationRegistryError::StaleRegistrationGeneration {
                    current: unregistration.generation,
                    received: registration.generation,
                },
            )
            &&& spoken && registration.registration_id == id && registration.generation
                == unregistration.generation ==> invalidation_registry::register_error(
                now,
                registration,
            ) == Some(
                InvalidationRegistryError::RegistrationGenerationCollision {
                    generation: unregistration.generation,
                },
            )
            &&& invalidation_registry::unregister_error(now, unregistration) is None
            &&& invalidation_registry::unregistered(now, unregistration) == now
        }),
{
    let n = states.len() - 1;
    let now = states.last();
    let id = unregistration.registration_id;
    assert(follows(states[j], calls[j], states[j + 1]));
    lemma_history(states, calls, j);
    lemma_history(states, calls, n);
    lemma_tombstone_stays(states, calls, unregistration, j + 1, n);
    assert(now.registrations.insert(id, RegistrationStateView::Tombstone(unregistration))
        =~= now.registrations);
}

/// The inbox after a number of deliveries.
pub open spec fn delivered(inbox: InboxView, identities: Seq<IdentityView>) -> InboxView
    decreases identities.len(),
{
    if identities.len() == 0 {
        inbox
    } else {
        let before = delivered(inbox, identities.drop_last());
        if before.seen.contains(identities.last()) {
            before
        } else {
            before.remember(identities.last())
        }
    }
}

/// How many of the deliveries the inbox accepts.
pub open spec fn accepted_deliveries(inbox: InboxView, identities: Seq<IdentityView>) -> nat
    decreases identities.len(),
{
    if identities.len() == 0 {
        0
    } else {
        let before = accepted_deliveries(inbox, identities.drop_last());
        if delivered(inbox, identities.drop_last()).seen.contains(identities.last()) {
            before
        } else {
            before + 1
        }
    }
}

/// None of the deliveries is an accepted delivery of the identity.
pub open spec fn never_accepts(
    inbox: InboxView,
    identities: Seq<IdentityView>,
    identity: IdentityView,
) -> bool
    decreases identities.len(),
{
    identities.len() == 0 || {
        &&& never_accepts(inbox, identities.drop_last(), identity)
        &&& identities.last() == identity ==> delivered(
            inbox,
            identities.drop_last(),
        ).seen.contains(identity)
    }
}

proof fn lemma_delivered(
    inbox: InboxView,
    identity: IdentityView,
    identities: Seq<IdentityView>,
)
    requires
        inbox.wf(),
        inbox.seen.len() > 0,
        inbox.seen.last() == identity,
        never_accepts(inbox, identities, identity),
    ensures
        ({
            let after = delivered(inbox, identities);
            let newer = accepted_deliveries(inbox, identities);
            let place = after.seen.len() - 1 - newer;
            &&& after.wf()
            &&& after.max_seen == inbox.max_seen
            &&& newer < inbox.max_seen ==> 0 <= place < after.seen.len() && after.seen[place]
                == identity
            &&& newer >= inbox.max_seen ==> !after.seen.contains(identity)
        }),
    decreases identities.len(),
{
    if identities.len() > 0 {
        let earlier = identities.drop_last();
        lemma_delivered(inbox, identity, earlier);
        let before = delivered(inbox, earlier);
        let after = delivered(inbox, identities);
        let next = identities.last();
        if !before.seen.contains(next) {
            invalidation_registry::accepted_identity_is_refused_next(before, next);
            let newer = accepted_deliveries(inbox, earlier);
            let place = before.seen.len() - 1 - newer;
            let pushed = before.seen.push(next);
            if newer < inbox.max_seen {
                assert(pushed[place] == identity);
                assert(before.seen.contains(identity));
                if newer + 1 < inbox.max_seen {
                    if pushed.len() > before.max_seen {
                        assert(place > 0);
                        assert(pushed.drop_first()[place - 1] == identity);
                    }
                } else {
                    assert(place == 0);
                    assert(pushed.len() > before.max_seen);
                    assert forall|i: int| 0 <= i < after.seen.len() implies #[trigger] after.seen[i]
                        != identity by {
                        assert(after.seen[i] == pushed[i + 1]);
                        if i + 1 < before.seen.len() {
                            assert(before.seen[i + 1] != before.seen[0]);
                        }
                    }
                }
            } else {
                assert(next != identity);
                assert forall|i: int| 0 <= i < after.seen.len() implies #[trigger] after.seen[i]
                    != identity by {
                    let k = if pushed.len() > before.max_seen {
                        i + 1
                    } else {
                        i
                    };
                    assert(after.seen[i] == pushed[k]);
                    if k < before.seen.len() {
                        assert(before.seen.contains(before.seen[k]));
                    }
                }
            }
        }
    }
}

/// Since an identity was last accepted, it is refused, however often it is
/// delivered, exactly as long as the inbox has accepted fewer others than it
/// can hold.
pub proof fn accepted_identity_stays_refused(
    inbox: InboxView,
    identity: IdentityView,
    identities: Seq<IdentityView>,
)
    requires
        inbox.wf(),
        !inbox.seen.contains(identity),
        never_accepts(inbox.remember(identity), identities, identity),
    ensures
        delivered(inbox.remember(identity), identities).seen.contains(identity)
            <==> accepted_deliveries(inbox.remember(identity), identities) < inbox.max_seen,
{
    invalidation_registry::accepted_identity_is_refused_next(inbox, identity);
    let after = inbox.remember(identity);
    assert(after.seen.last() == identity);
    lemma_delivered(after, identity, identities);
    let later = delivered(after, identities);
    let newer = accepted_deliveries(after, identities);
    if newer < inbox.max_seen {
        assert(later.seen[later.seen.len() - 1 - newer] == identity);
    }
}

} // verus!
