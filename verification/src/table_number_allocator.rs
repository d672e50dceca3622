//! Numbers for user tables.
//!
//! A single node takes the next number that is free in its own tables. In a
//! cluster, document identifiers have to mean the same on every node, so that
//! the numbers come from one counter that all nodes share.

use vstd::prelude::*;

use crate::big_endian;
use crate::retry;

verus! {

pub const TABLE_NUMBER_KV_BUCKET: &'static str = "convex_table_numbers";

pub const USER_TABLE_NUMBER_COUNTER_KEY: &'static str = "user_table_number_counter";

/// The numbers up to this one are kept for system tables.
pub const NUM_RESERVED_SYSTEM_TABLE_NUMBERS: u32 = 10_000;

/// The number of a table.
#[derive(Clone, Copy, Debug, PartialEq, Eq, PartialOrd, Ord, Structural)]
pub struct TableNumber(pub u32);

/// The first number that a user table can have.
pub fn first_user_table_number() -> (r: TableNumber)
    ensures
        r.0 == NUM_RESERVED_SYSTEM_TABLE_NUMBERS + 1,
{
    TableNumber(NUM_RESERVED_SYSTEM_TABLE_NUMBERS + 1)
}

/// What the counter holds at first.
pub fn initial_counter() -> (r: Vec<u8>)
    ensures
        r@ == big_endian::u32_bytes((NUM_RESERVED_SYSTEM_TABLE_NUMBERS + 1) as u32),
{
    big_endian::encode_u32(first_user_table_number().0)
}

/// Gives out the numbers of a single node.
#[derive(Clone, Copy, Debug, PartialEq, Eq, Structural)]
pub struct LocalTableNumberAllocator;

impl LocalTableNumberAllocator {
    /// The next number that is free in the node's own tables.
    pub fn next_user_table_number(&self, local_floor: TableNumber) -> (r: TableNumber)
        ensures
            r == local_floor,
    {
        local_floor
    }
}

/// Why no number was given out.
#[derive(Clone, Copy, Debug, PartialEq, Eq, Structural)]
pub enum AllocationError {
    CounterNotFound,
    InvalidCounter,
    Overflow,
    Conflicts,
}

impl AllocationError {
    /// The text of the error.
    pub open spec fn text(self) -> Seq<char> {
        match self {
            AllocationError::CounterNotFound => "TableNumberAllocator: Counter key not found"@,
            AllocationError::InvalidCounter => "TableNumberAllocator: Invalid counter value"@,
            AllocationError::Overflow => "TableNumberAllocator: table number overflow"@,
            AllocationError::Conflicts => {
                "TableNumberAllocator: Failed to allocate after 10 attempts"@
            },
        }
    }

    /// The text of the error.
    pub fn message(&self) -> (r: String)
        ensures
            r@ == self.text(),
    {
        match self {
            AllocationError::CounterNotFound => "TableNumberAllocator: Counter key not found",
            AllocationError::InvalidCounter => "TableNumberAllocator: Invalid counter value",
            AllocationError::Overflow => "TableNumberAllocator: table number overflow",
            AllocationError::Conflicts => {
                "TableNumberAllocator: Failed to allocate after 10 attempts"
            },
        }.to_owned()
    }
}

/// The number that is next, given the counter and the node's own tables.
pub open spec fn candidate_of(counter: u32, local_floor: TableNumber) -> u32 {
    if counter < local_floor.0 {
        local_floor.0
    } else {
        counter
    }
}

/// Where an allocation stands.
#[derive(Clone, Copy, Debug, PartialEq, Eq, Structural)]
pub enum AllocationPhase {
    /// The counter is being read.
    Reading,
    /// The counter behind the number is being stored.
    Writing { candidate: TableNumber },
    /// Another node was faster: waiting before the next attempt.
    Waiting,
    Done { number: TableNumber },
    Failed { error: AllocationError },
}

/// What happens to an allocation.
#[derive(Clone, Debug)]
pub enum AllocationEvent {
    /// The store holds this counter, at this revision.
    Found { counter: Vec<u8>, revision: u64 },
    /// The store holds no counter.
    Missing,
    Stored,
    Conflict,
    Slept,
}

/// What an [`AllocationEvent`] states.
pub enum AllocationEventView {
    Found { counter: Seq<u8>, revision: u64 },
    Missing,
    Stored,
    Conflict,
    Slept,
}

impl View for AllocationEvent {
    type V = AllocationEventView;

    open spec fn view(&self) -> AllocationEventView {
        match self {
            AllocationEvent::Found { counter, revision } => AllocationEventView::Found {
                counter: counter@,
                revision: *revision,
            },
            AllocationEvent::Missing => AllocationEventView::Missing,
            AllocationEvent::Stored => AllocationEventView::Stored,
            AllocationEvent::Conflict => AllocationEventView::Conflict,
            AllocationEvent::Slept => AllocationEventView::Slept,
        }
    }
}

/// What an allocation has done next.
#[derive(Clone, Debug)]
pub enum AllocationAction {
    /// Read the counter.
    Read,
    /// Store the counter, if it still has the revision.
    Update { counter: Vec<u8>, revision: u64 },
    /// Wait for so many milliseconds.
    Sleep { millis: u64 },
    Finish,
    Fail,
    /// The event does not belong here: nothing.
    Ignore,
}

/// What an [`AllocationAction`] states.
pub enum AllocationActionView {
    Read,
    Update { counter: Seq<u8>, revision: u64 },
    Sleep { millis: u64 },
    Finish,
    Fail,
    Ignore,
}

impl View for AllocationAction {
    type V = AllocationActionView;

    open spec fn view(&self) -> AllocationActionView {
        match self {
            AllocationAction::Read => AllocationActionView::Read,
            AllocationAction::Update { counter, revision } => AllocationActionView::Update {
                counter: counter@,
                revision: *revision,
            },
            AllocationAction::Sleep { millis } => AllocationActionView::Sleep { millis: *millis },
            AllocationAction::Finish => AllocationActionView::Finish,
            AllocationAction::Fail => AllocationActionView::Fail,
            AllocationAction::Ignore => AllocationActionView::Ignore,
        }
    }
}

/// A number on its way out of the shared counter. Whoever runs it performs
/// each action and tells what came of it.
#[derive(Clone, Copy, Debug, PartialEq, Eq, Structural)]
pub struct Allocation {
    pub local_floor: TableNumber,
    pub attempt: u32,
    pub phase: AllocationPhase,
}

/// What follows from the counter that was read.
pub open spec fn counter_read(state: Allocation, counter: Seq<u8>, revision: u64) -> (
    Allocation,
    AllocationActionView,
) {
    if counter.len() != 4 {
        (
            Allocation {
                phase: AllocationPhase::Failed { error: AllocationError::InvalidCounter },
                ..state
            },
            AllocationActionView::Fail,
        )
    } else {
        let candidate = candidate_of(big_endian::u32_value(counter), state.local_floor);
        if candidate == u32::MAX {
            (
                Allocation {
                    phase: AllocationPhase::Failed { error: AllocationError::Overflow },
                    ..state
                },
                AllocationActionView::Fail,
            )
        } else {
            (
                Allocation {
                    phase: AllocationPhase::Writing { candidate: TableNumber(candidate) },
                    ..state
                },
                AllocationActionView::Update {
                    counter: big_endian::u32_bytes((candidate + 1) as u32),
                    revision,
                },
            )
        }
    }
}

/// One step of an allocation.
pub open spec fn allocation_step(state: Allocation, event: AllocationEventView) -> (
    Allocation,
    AllocationActionView,
) {
    match (state.phase, event) {
        (AllocationPhase::Reading, AllocationEventView::Found { counter, revision }) => {
            counter_read(state, counter, revision)
        },
        (AllocationPhase::Reading, AllocationEventView::Missing) => (
            Allocation {
                phase: AllocationPhase::Failed { error: AllocationError::CounterNotFound },
                ..state
            },
            AllocationActionView::Fail,
        ),
        (AllocationPhase::Writing { candidate }, AllocationEventView::Stored) => (
            Allocation { phase: AllocationPhase::Done { number: candidate }, ..state },
            AllocationActionView::Finish,
        ),
        (AllocationPhase::Writing { candidate }, AllocationEventView::Conflict) => (
            Allocation { phase: AllocationPhase::Waiting, ..state },
            AllocationActionView::Sleep { millis: retry::wait_after(state.attempt) },
        ),
        (AllocationPhase::Waiting, AllocationEventView::Slept) => if state.attempt + 1
            < retry::ATTEMPTS {
            (
                Allocation {
                    attempt: (state.attempt + 1) as u32,
                    phase: AllocationPhase::Reading,
                    ..state
                },
                AllocationActionView::Read,
            )
        } else {
            (
                Allocation {
                    phase: AllocationPhase::Failed { error: AllocationError::Conflicts },
                    ..state
                },
                AllocationActionView::Fail,
            )
        },
        _ => (state, AllocationActionView::Ignore),
    }
}

impl Allocation {
    pub open spec fn wf(self) -> bool {
        self.attempt < retry::ATTEMPTS
    }

    /// An allocation that is about to read the counter for the first time. The
    /// number is at least `local_floor`.
    pub fn new(local_floor: TableNumber) -> (r: Self)
        ensures
            r.wf(),
            r == (Allocation { local_floor, attempt: 0, phase: AllocationPhase::Reading }),
    {
        Allocation { local_floor, attempt: 0, phase: AllocationPhase::Reading }
    }

    /// One step of the allocation.
    pub fn step(&mut self, event: AllocationEvent) -> (r: AllocationAction)
        requires
            old(self).wf(),
        ensures
            final(self).wf(),
            (*final(self), r@) == allocation_step(*old(self), event@),
    {
        match self.phase {
            AllocationPhase::Reading => match event {
                AllocationEvent::Found { counter, revision } => {
                    let counter: u32 = match big_endian::decode_u32(counter.as_slice()) {
                        Some(counter) => counter,
                        None => {
                            self.phase = AllocationPhase::Failed {
                                error: AllocationError::InvalidCounter,
                            };
                            return AllocationAction::Fail;
                        },
                    };
                    let candidate: u32 = if counter < self.local_floor.0 {
                        self.local_floor.0
                    } else {
                        counter
                    };
                    match candidate.checked_add(1) {
                        Some(next) => {
                            self.phase = AllocationPhase::Writing {
                                candidate: TableNumber(candidate),
                            };
                            AllocationAction::Update {
                                counter: big_endian::encode_u32(next),
                                revision,
                            }
                        },
                        None => {
                            self.phase = AllocationPhase::Failed {
                                error: AllocationError::Overflow,
                            };
                            AllocationAction::Fail
                        },
                    }
                },
                AllocationEvent::Missing => {
                    self.phase = AllocationPhase::Failed {
                        error: AllocationError::CounterNotFound,
                    };
                    AllocationAction::Fail
                },
                _ => AllocationAction::Ignore,
            },
            AllocationPhase::Writing { candidate } => match event {
                AllocationEvent::Stored => {
                    self.phase = AllocationPhase::Done { number: candidate };
                    AllocationAction::Finish
                },
                AllocationEvent::Conflict => {
                    self.phase = AllocationPhase::Waiting;
                    AllocationAction::Sleep { millis: retry::wait_millis(self.attempt) }
                },
                _ => AllocationAction::Ignore,
            },
            AllocationPhase::Waiting => match event {
                AllocationEvent::Slept => {
                    if self.attempt + 1 < retry::ATTEMPTS {
                        self.attempt = self.attempt + 1;
                        self.phase = AllocationPhase::Reading;
                        AllocationAction::Read
                    } else {
                        self.phase = AllocationPhase::Failed { error: AllocationError::Conflicts };
                        AllocationAction::Fail
                    }
                },
                _ => AllocationAction::Ignore,
            },
            _ => AllocationAction::Ignore,
        }
    }
}

/// Gives out the numbers of a cluster, from the counter that its nodes share.
#[derive(Clone, Copy, Debug, PartialEq, Eq, Structural)]
pub struct NatsTableNumberAllocator;

impl NatsTableNumberAllocator {
    /// Begins the allocation of the next number, with what is done first.
    pub fn next_user_table_number(&self, local_floor: TableNumber) -> (r: (
        Allocation,
        AllocationAction,
    ))
        ensures
            r.0.wf(),
            r.0 == (Allocation { local_floor, attempt: 0, phase: AllocationPhase::Reading }),
            r.1@ == AllocationActionView::Read,
    {
        (Allocation::new(local_floor), AllocationAction::Read)
    }
}

/// A number that is given out is the larger of the counter and what the node's
/// own tables ask for, and the counter that is stored is the one behind it.
/// Where there is none behind it, nothing is stored.
pub proof fn counter_moves_behind_the_number(state: Allocation, counter: Seq<u8>, revision: u64)
    requires
        state.phase is Reading,
        counter.len() == 4,
    ensures
        ({
            let (next, action) = allocation_step(
                state,
                AllocationEventView::Found { counter, revision },
            );
            let number = candidate_of(big_endian::u32_value(counter), state.local_floor);
            if number == u32::MAX {
                &&& action is Fail
                &&& next.phase == (AllocationPhase::Failed { error: AllocationError::Overflow })
            } else {
                &&& next.phase == (AllocationPhase::Writing { candidate: TableNumber(number) })
                &&& action matches AllocationActionView::Update { counter: stored, revision: on }
                &&& on == revision
                &&& stored.len() == 4
                &&& big_endian::u32_value(stored) == number + 1
            }
        }),
{
    let candidate = candidate_of(big_endian::u32_value(counter), state.local_floor);
    if candidate < u32::MAX {
        big_endian::u32_bytes_read_back((candidate + 1) as u32);
    }
}

/// The allocation after `n` attempts, each of which found a counter and lost
/// the race to store the next one.
pub open spec fn after_lost_races(
    state: Allocation,
    found: Seq<(Seq<u8>, u64)>,
    n: nat,
) -> Allocation
    decreases n,
{
    if n == 0 {
        state
    } else {
        let before = after_lost_races(state, found, (n - 1) as nat);
        let writing = allocation_step(
            before,
            AllocationEventView::Found { counter: found[n - 1].0, revision: found[n - 1].1 },
        ).0;
        let waiting = allocation_step(writing, AllocationEventView::Conflict).0;
        allocation_step(waiting, AllocationEventView::Slept).0
    }
}

/// An allocation that loses every race reads again nine times, and fails after
/// the tenth attempt.
pub proof fn ten_lost_races_are_the_end(
    local_floor: TableNumber,
    found: Seq<(Seq<u8>, u64)>,
    n: nat,
)
    requires
        0 < n <= found.len(),
        n <= retry::ATTEMPTS,
        forall|i: int|
            0 <= i < found.len() ==> (#[trigger] found[i]).0.len() == 4 && candidate_of(
                big_endian::u32_value(found[i].0),
                local_floor,
            ) < u32::MAX,
    ensures
        ({
            let start = Allocation { local_floor, attempt: 0, phase: AllocationPhase::Reading };
            let state = after_lost_races(start, found, n);
            if n < retry::ATTEMPTS {
                state == (Allocation {
                    local_floor,
                    attempt: n as u32,
                    phase: AllocationPhase::Reading,
                })
            } else {
                state.phase == (AllocationPhase::Failed { error: AllocationError::Conflicts })
            }
        }),
    decreases n,
{
    if n > 1 {
        ten_lost_races_are_the_end(local_floor, found, (n - 1) as nat);
    } else {
        reveal_with_fuel(after_lost_races, 2);
    }
    assert(found[n - 1].0.len() == 4);
}

/// The counter that all nodes share, and its revision.
#[verifier::ext_equal]
pub struct SharedCounter {
    pub counter: Seq<u8>,
    pub revision: u64,
}

/// An allocation on some node, and what it does next.
pub struct Caller {
    pub allocation: Allocation,
    pub next: AllocationActionView,
}

/// A number that an allocation was given.
pub struct Given {
    pub caller: int,
    pub number: u32,
}

/// All allocations, and what they share. The numbers that were given out stand
/// in the order in which they were.
pub struct Numbering {
    pub shared: Option<SharedCounter>,
    pub callers: Seq<Caller>,
    pub given: Seq<Given>,
}

/// Something that happens to the counter or to an allocation.
pub enum NumberingStep {
    /// A node creates the counter, where there is none.
    Create { revision: u64 },
    /// An allocation begins.
    Begin { local_floor: TableNumber },
    /// An allocation reads the counter.
    Read { caller: int },
    /// The store takes a counter that was sent to it, if the revision is still
    /// the one that was read. The allocation may not be told that it did.
    Write { caller: int, revision: u64, told: bool },
    /// An allocation has waited.
    Slept { caller: int },
}

impl Numbering {
    /// The allocation goes on with an event.
    pub open spec fn going_on(self, caller: int, event: AllocationEventView) -> Seq<Caller> {
        let (allocation, next) = allocation_step(self.callers[caller].allocation, event);
        self.callers.update(caller, Caller { allocation, next })
    }

    /// Nothing has happened yet.
    pub open spec fn is_empty(self) -> bool {
        self.shared is None && self.callers.len() == 0 && self.given.len() == 0
    }
}

/// What the step makes of the counter and the allocations.
pub open spec fn numbering_step(before: Numbering, step: NumberingStep, after: Numbering) -> bool {
    match step {
        NumberingStep::Create { revision } => after == (Numbering {
            shared: match before.shared {
                Some(shared) => Some(shared),
                None => Some(
                    SharedCounter {
                        counter: big_endian::u32_bytes(
                            (NUM_RESERVED_SYSTEM_TABLE_NUMBERS + 1) as u32,
                        ),
                        revision,
                    },
                ),
            },
            ..before
        }),
        NumberingStep::Begin { local_floor } => after == (Numbering {
            callers: before.callers.push(
                Caller {
                    allocation: Allocation {
                        local_floor,
                        attempt: 0,
                        phase: AllocationPhase::Reading,
                    },
                    next: AllocationActionView::Read,
                },
            ),
            ..before
        }),
        NumberingStep::Read { caller } => {
            &&& 0 <= caller < before.callers.len()
            &&& before.callers[caller].next is Read
            &&& after == (Numbering {
                callers: before.going_on(
                    caller,
                    match before.shared {
                        Some(shared) => AllocationEventView::Found {
                            counter: shared.counter,
                            revision: shared.revision,
                        },
                        None => AllocationEventView::Missing,
                    },
                ),
                ..before
            })
        },
        NumberingStep::Write { caller, revision, told } => {
            &&& 0 <= caller < before.callers.len()
            &&& before.callers[caller].next matches AllocationActionView::Update {
                counter,
                revision: on,
            }
            &&& before.shared matches Some(shared)
            &&& if on == shared.revision {
                &&& shared.revision < revision
                &&& after.shared == Some(SharedCounter { counter, revision })
                &&& after.callers == before.going_on(
                    caller,
                    if told {
                        AllocationEventView::Stored
                    } else {
                        AllocationEventView::Conflict
                    },
                )
                &&& after.given == (match (told, before.callers[caller].allocation.phase) {
                    (true, AllocationPhase::Writing { candidate }) => before.given.push(
                        Given { caller, number: candidate.0 },
                    ),
                    _ => before.given,
                })
            } else {
                after == (Numbering {
                    callers: before.going_on(caller, AllocationEventView::Conflict),
                    ..before
                })
            }
        },
        NumberingStep::Slept { caller } => {
            &&& 0 <= caller < before.callers.len()
            &&& before.callers[caller].next is Sleep
            &&& after == (Numbering {
                callers: before.going_on(caller, AllocationEventView::Slept),
                ..before
            })
        },
    }
}

/// The states came about by these steps, from nothing.
pub open spec fn is_numbering(states: Seq<Numbering>, steps: Seq<NumberingStep>) -> bool {
    &&& states.len() == steps.len() + 1
    &&& states[0].is_empty()
    &&& forall|i: int|
        0 <= i < steps.len() ==> numbering_step(states[i], #[trigger] steps[i], states[i + 1])
}

/// What the allocation is about to store was read at the revision that it
/// names, and lies behind its number.
spec fn holds_its_reading(caller: Caller, shared: Option<SharedCounter>) -> bool {
    caller.next matches AllocationActionView::Update { counter, revision } ==> {
        &&& shared matches Some(cell)
        &&& revision <= cell.revision
        &&& caller.allocation.phase matches AllocationPhase::Writing { candidate }
        &&& candidate.0 < u32::MAX
        &&& caller.allocation.local_floor.0 <= candidate.0
        &&& NUM_RESERVED_SYSTEM_TABLE_NUMBERS < candidate.0
        &&& counter == big_endian::u32_bytes((candidate.0 + 1) as u32)
        &&& revision == cell.revision ==> candidate.0 == candidate_of(
            big_endian::u32_value(cell.counter),
            caller.allocation.local_floor,
        )
    }
}

/// An allocation that has its number does nothing more.
spec fn ends_with_its_number(caller: Caller) -> bool {
    caller.allocation.phase is Done ==> caller.next is Finish
}

impl Numbering {
    /// The number stands in the list of those that were given out.
    pub open spec fn has_given(self, caller: int, number: u32) -> bool {
        exists|k: int|
            0 <= k < self.given.len() && #[trigger] self.given[k] == (Given { caller, number })
    }

    /// The allocation has this number.
    pub open spec fn has_number(self, caller: int, number: u32) -> bool {
        &&& 0 <= caller < self.callers.len()
        &&& self.callers[caller].allocation.phase == (AllocationPhase::Done {
            number: TableNumber(number),
        })
    }

    /// The counter lies behind all numbers that were given out, and those grow.
    spec fn wf(self) -> bool {
        &&& self.shared matches Some(cell) ==> {
            &&& cell.counter.len() == 4
            &&& NUM_RESERVED_SYSTEM_TABLE_NUMBERS < big_endian::u32_value(cell.counter)
            &&& forall|k: int|
                0 <= k < self.given.len() ==> (#[trigger] self.given[k]).number
                    < big_endian::u32_value(cell.counter)
        }
        &&& self.shared is None ==> self.given.len() == 0
        &&& forall|i: int|
            0 <= i < self.callers.len() ==> holds_its_reading(
                #[trigger] self.callers[i],
                self.shared,
            ) && ends_with_its_number(self.callers[i])
        &&& forall|k: int|
            0 <= k < self.given.len() ==> self.gave(#[trigger] self.given[k])
        &&& forall|k: int, l: int|
            0 <= k < l < self.given.len() ==> (#[trigger] self.given[k]).number < (
            #[trigger] self.given[l]).number
        &&& forall|i: int|
            0 <= i < self.callers.len() ==> self.accounts_for(i, #[trigger] self.callers[i])
    }

    /// The allocation that was given the number has it.
    spec fn gave(self, given: Given) -> bool {
        &&& self.has_number(given.caller, given.number)
        &&& self.callers[given.caller].allocation.local_floor.0 <= given.number
        &&& NUM_RESERVED_SYSTEM_TABLE_NUMBERS < given.number
    }

    /// The number that an allocation has was given to it.
    spec fn accounts_for(self, i: int, caller: Caller) -> bool {
        caller.allocation.phase matches AllocationPhase::Done { number } ==> self.has_given(
            i,
            number.0,
        )
    }
}

proof fn lemma_callers_hold(before: Numbering, step: NumberingStep, after: Numbering)
    requires
        before.wf(),
        numbering_step(before, step, after),
    ensures
        forall|i: int|
            0 <= i < after.callers.len() ==> holds_its_reading(
                #[trigger] after.callers[i],
                after.shared,
            ) && ends_with_its_number(after.callers[i]),
{
    big_endian::u32_bytes_read_back((NUM_RESERVED_SYSTEM_TABLE_NUMBERS + 1) as u32);
    match step {
        NumberingStep::Read { caller } => {
            match before.shared {
                Some(cell) => {
                    let state = before.callers[caller].allocation;
                    if state.phase is Reading {
                        counter_moves_behind_the_number(state, cell.counter, cell.revision);
                    }
                },
                None => {},
            }
            assert(ends_with_its_number(before.callers[caller]));
        },
        NumberingStep::Write { caller, revision, told } => {
            assert(holds_its_reading(before.callers[caller], before.shared));
        },
        NumberingStep::Slept { caller } => {
            assert(ends_with_its_number(before.callers[caller]));
        },
        _ => {},
    }
    assert forall|i: int| 0 <= i < after.callers.len() implies holds_its_reading(
        #[trigger] after.callers[i],
        after.shared,
    ) && ends_with_its_number(after.callers[i]) by {
        if i < before.callers.len() {
            assert(holds_its_reading(before.callers[i], before.shared));
        }
    }
}

proof fn lemma_numbering_step(before: Numbering, step: NumberingStep, after: Numbering)
    requires
        before.wf(),
        numbering_step(before, step, after),
    ensures
        after.wf(),
{
    big_endian::u32_bytes_read_back((NUM_RESERVED_SYSTEM_TABLE_NUMBERS + 1) as u32);
    lemma_callers_hold(before, step, after);
    match step {
        NumberingStep::Write { caller, revision, told } => {
            assert(holds_its_reading(before.callers[caller], before.shared));
            match before.callers[caller].allocation.phase {
                AllocationPhase::Writing { candidate } => {
                    big_endian::u32_bytes_read_back((candidate.0 + 1) as u32);
                },
                _ => {},
            }
        },
        NumberingStep::Read { caller } => {
            assert(ends_with_its_number(before.callers[caller]));
        },
        NumberingStep::Slept { caller } => {
            assert(ends_with_its_number(before.callers[caller]));
        },
        _ => {},
    }
    assert forall|k: int, l: int| 0 <= k < l < after.given.len() implies (
    #[trigger] after.given[k]).number < (#[trigger] after.given[l]).number by {
        assert(after.given[k] == before.given[k]);
        if l < before.given.len() {
            assert(after.given[l] == before.given[l]);
        }
    }
    assert forall|k: int| 0 <= k < after.given.len() implies after.gave(
        #[trigger] after.given[k],
    ) by {
        if k < before.given.len() {
            assert(after.given[k] == before.given[k]);
            assert(before.gave(before.given[k]));
        }
    }
    assert forall|i: int| 0 <= i < after.callers.len() implies after.accounts_for(
        i,
        #[trigger] after.callers[i],
    ) by {
        match after.callers[i].allocation.phase {
            AllocationPhase::Done { number } => {
                if i < before.callers.len() && before.callers[i].allocation.phase is Done {
                    assert(before.accounts_for(i, before.callers[i]));
                    assert(after.callers[i] == before.callers[i]);
                    let k = choose|k: int|
                        0 <= k < before.given.len() && #[trigger] before.given[k] == (Given {
                            caller: i,
                            number: number.0,
                        });
                    assert(after.given[k] == before.given[k]);
                } else {
                    assert(after.given[before.given.len() as int] == (Given {
                        caller: i,
                        number: number.0,
                    }));
                }
            },
            _ => {},
        }
    }
}

proof fn lemma_numbering(states: Seq<Numbering>, steps: Seq<NumberingStep>, n: int)
    requires
        is_numbering(states, steps),
        0 <= n < states.len(),
    ensures
        states[n].wf(),
    decreases n,
{
    if n > 0 {
        lemma_numbering(states, steps, n - 1);
        assert(numbering_step(states[n - 1], steps[n - 1], states[n - 1 + 1]));
        lemma_numbering_step(states[n - 1], steps[n - 1], states[n]);
    }
}

/// However many nodes take numbers from the counter, and however their reads
/// and writes fall between one another, no two allocations have the same number.
/// Each number is one for user tables, and none is below what the tables of its
/// node asked for.
pub proof fn no_two_allocations_have_the_same_number(
    states: Seq<Numbering>,
    steps: Seq<NumberingStep>,
    first: int,
    first_number: u32,
    second: int,
    second_number: u32,
)
    requires
        is_numbering(states, steps),
        first != second,
        states.last().has_number(first, first_number),
        states.last().has_number(second, second_number),
    ensures
        first_number != second_number,
        states.last().callers[first].allocation.local_floor.0 <= first_number,
        NUM_RESERVED_SYSTEM_TABLE_NUMBERS < first_number,
{
    lemma_numbering(states, steps, states.len() - 1);
    let last = states.last();
    assert(last.accounts_for(first, last.callers[first]));
    assert(last.accounts_for(second, last.callers[second]));
    let k = choose|k: int|
        0 <= k < last.given.len() && #[trigger] last.given[k] == (Given {
            caller: first,
            number: first_number,
        });
    let l = choose|l: int|
        0 <= l < last.given.len() && #[trigger] last.given[l] == (Given {
            caller: second,
            number: second_number,
        });
    assert(last.gave(last.given[k]));
}

/// Each number is larger than every one that was given out before it.
pub proof fn numbers_grow(
    states: Seq<Numbering>,
    steps: Seq<NumberingStep>,
    first: int,
    second: int,
)
    requires
        is_numbering(states, steps),
        0 <= first < second < states.last().given.len(),
    ensures
        states.last().given[first].number < states.last().given[second].number,
{
    lemma_numbering(states, steps, states.len() - 1);
}

/// An allocation has a number if and only if that was given out to it.
pub proof fn numbers_are_had_as_given(
    states: Seq<Numbering>,
    steps: Seq<NumberingStep>,
    caller: int,
    number: u32,
)
    requires
        is_numbering(states, steps),
    ensures
        states.last().has_given(caller, number) <==> states.last().has_number(caller, number),
{
    lemma_numbering(states, steps, states.len() - 1);
    let last = states.last();
    if last.has_given(caller, number) {
        let k = choose|k: int|
            0 <= k < last.given.len() && #[trigger] last.given[k] == (Given { caller, number });
        assert(last.gave(last.given[k]));
    }
    if last.has_number(caller, number) {
        assert(last.accounts_for(caller, last.callers[caller]));
    }
}

/// The step at which an allocation fails gives out nothing and leaves the
/// counter as it is.
pub proof fn failing_leaves_the_counter(
    states: Seq<Numbering>,
    steps: Seq<NumberingStep>,
    n: int,
    caller: int,
)
    requires
        is_numbering(states, steps),
        0 <= n < steps.len(),
        0 <= caller < states[n].callers.len(),
        !(states[n].callers[caller].allocation.phase is Failed),
        states[n + 1].callers[caller].allocation.phase is Failed,
    ensures
        states[n + 1].shared == states[n].shared,
        states[n + 1].given == states[n].given,
{
    lemma_numbering(states, steps, n);
    assert(numbering_step(states[n], steps[n], states[n + 1]));
    assert(holds_its_reading(states[n].callers[caller], states[n].shared));
}

/// A number is given out by the very step that moves the shared counter: the
/// number is the larger of the counter and what the node's own tables ask for,
/// and the counter is then the one behind it. An allocation that lost the race
/// leaves the counter as it is.
pub proof fn giving_out_moves_the_counter(
    states: Seq<Numbering>,
    steps: Seq<NumberingStep>,
    n: int,
    caller: int,
    revision: u64,
)
    requires
        is_numbering(states, steps),
        0 <= n < steps.len(),
        steps[n] == (NumberingStep::Write { caller, revision, told: true }),
    ensures
        ({
            let before = states[n];
            let after = states[n + 1];
            let old_counter = before.shared->Some_0;
            let state = before.callers[caller].allocation;
            if before.callers[caller].next->Update_revision == old_counter.revision {
                let number = candidate_of(
                    big_endian::u32_value(old_counter.counter),
                    state.local_floor,
                );
                &&& after.callers[caller].allocation.phase == (AllocationPhase::Done {
                    number: TableNumber(number),
                })
                &&& after.given == before.given.push(Given { caller, number })
                &&& big_endian::u32_value(after.shared->Some_0.counter) == number + 1
            } else {
                &&& after.shared == before.shared
                &&& after.given == before.given
                &&& after.callers[caller].allocation.phase is Waiting
            }
        }),
{
    lemma_numbering(states, steps, n);
    let before = states[n];
    assert(numbering_step(states[n], steps[n], states[n + 1]));
    assert(holds_its_reading(before.callers[caller], before.shared));
    match before.callers[caller].allocation.phase {
        AllocationPhase::Writing { candidate } => {
            big_endian::u32_bytes_read_back((candidate.0 + 1) as u32);
        },
        _ => {},
    }
}

/// The number that is next is the larger of the counter and what the tables of
/// the node ask for.
pub proof fn the_larger_number_is_next(counter: u32, local_floor: TableNumber)
    ensures
        counter <= candidate_of(counter, local_floor),
        local_floor.0 <= candidate_of(counter, local_floor),
        candidate_of(counter, local_floor) == counter || candidate_of(counter, local_floor)
            == local_floor.0,
        NUM_RESERVED_SYSTEM_TABLE_NUMBERS == 10_000,
{
}

/// An allocation fails for its cause: a counter that is not there, one that is
/// no number of four bytes, and one that no number is behind.
pub proof fn allocations_fail_for_cause(state: Allocation, counter: Seq<u8>, revision: u64)
    requires
        state.phase is Reading,
    ensures
        ({
            let (missed, none) = allocation_step(state, AllocationEventView::Missing);
            let (next, action) = allocation_step(
                state,
                AllocationEventView::Found { counter, revision },
            );
            let exhausted = counter.len() == 4 && (big_endian::u32_value(counter) == u32::MAX
                || state.local_floor.0 == u32::MAX);
            &&& none is Fail
            &&& missed.phase == (AllocationPhase::Failed {
                error: AllocationError::CounterNotFound,
            })
            &&& next.phase == (AllocationPhase::Failed { error: AllocationError::InvalidCounter })
                <==> counter.len() != 4
            &&& next.phase == (AllocationPhase::Failed { error: AllocationError::Overflow })
                <==> exhausted
            &&& action is Fail <==> counter.len() != 4 || exhausted
            &&& action is Update <==> counter.len() == 4 && !exhausted
            &&& next.attempt == state.attempt
            &&& next.local_floor == state.local_floor
        }),
{
}

/// A counter that was stored ends the allocation with its number. After a
/// conflict it waits, and reads the counter again, ten times in all.
pub proof fn conflicts_lead_back_to_the_counter(state: Allocation, candidate: TableNumber)
    requires
        state.phase == (AllocationPhase::Writing { candidate }),
        state.attempt < 10,
    ensures
        ({
            let (stored, finished) = allocation_step(state, AllocationEventView::Stored);
            let (waiting, slept) = allocation_step(state, AllocationEventView::Conflict);
            let (again, action) = allocation_step(waiting, AllocationEventView::Slept);
            &&& finished is Finish
            &&& stored.phase == (AllocationPhase::Done { number: candidate })
            &&& slept == (AllocationActionView::Sleep { millis: retry::wait_after(state.attempt) })
            &&& again.local_floor == state.local_floor
            &&& state.attempt < 9 ==> {
                &&& action is Read
                &&& again.phase is Reading
                &&& again.attempt == state.attempt + 1
            }
            &&& state.attempt == 9 ==> {
                &&& action is Fail
                &&& again.phase == (AllocationPhase::Failed { error: AllocationError::Conflicts })
            }
        }),
{
}

/// What does not belong to where an allocation stands changes nothing.
pub proof fn stray_events_leave_the_allocation(state: Allocation, event: AllocationEventView)
    ensures
        allocation_step(state, event).1 is Ignore <==> !({
            ||| state.phase is Reading && (event is Found || event is Missing)
            ||| state.phase is Writing && (event is Stored || event is Conflict)
            ||| state.phase is Waiting && event is Slept
        }),
        allocation_step(state, event).1 is Ignore ==> allocation_step(state, event).0 == state,
{
}

} // verus!
