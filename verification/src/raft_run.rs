//! The run loop of a Raft node: what it does next.
//!
//! One pass of the loop takes the waiting messages, then the finished
//! state-machine applies, ticks where it is time, processes what the protocol
//! has ready, and schedules committed entries. A pass that found nothing to do
//! ends in waiting for the next message, apply or tick. The driver performs
//! each action and reports what came of it.

use vstd::prelude::*;

use crate::ordered::{IndexSet, SortedMap};
use crate::raft_node;
use crate::raft_node::{EntryClass, EntryKind, NodeView, RaftNode, TICK_INTERVAL};

verus! {

/// A committed log entry.
#[derive(Clone, Debug, PartialEq, Eq)]
pub struct CommittedEntry {
    pub index: u64,
    pub kind: EntryKind,
    pub data: Vec<u8>,
}

/// What a [`CommittedEntry`] stands for.
pub struct EntryView {
    pub index: u64,
    pub kind: EntryKind,
    pub data: Seq<u8>,
}

impl View for CommittedEntry {
    type V = EntryView;

    open spec fn view(&self) -> EntryView {
        EntryView { index: self.index, kind: self.kind, data: self.data@ }
    }
}

/// Where in its pass the loop is.
#[derive(Clone, Copy, Debug, PartialEq, Eq, Structural)]
pub enum LoopPhase {
    Mailbox,
    Applies,
    Clock,
    Ready,
    Schedule,
    Idle,
}

/// What the driver does next.
#[derive(Clone, Copy, Debug, PartialEq, Eq, Structural)]
pub enum LoopAction {
    /// Take a message from the mailbox without waiting, and process it.
    TryMailbox,
    /// Take a finished apply without waiting, and account for it.
    TryApplies,
    ReadClock,
    /// Tick the protocol, and look whether a serving-lease round is due.
    Tick,
    /// Look whether the protocol has something ready.
    PollReady,
    /// Process what it has ready.
    ProcessReady,
    /// Schedule committed entries.
    Schedule,
    /// Let other tasks run, then go on.
    Yield,
    /// Wait for a message, a finished apply, or the deadline.
    Wait { until: u64 },
    /// Leave the loop.
    Stop,
    /// Leave the loop with an error: the apply worker is gone with this many
    /// applies pending.
    FailWorkerGone { pending: usize },
}

/// What came of an action.
#[derive(Clone, Copy, Debug, PartialEq, Eq, Structural)]
pub enum LoopEvent {
    /// The driver starts the loop, or resumes it after a yield.
    Resumed,
    /// A message was processed.
    MessageHandled,
    /// A message asked to shut down.
    ShutdownRequested,
    MailboxEmpty,
    MailboxClosed,
    /// A finished apply was accounted for.
    ApplyHandled,
    AppliesEmpty,
    AppliesClosed,
    /// The clock's reading.
    Now { now: u64 },
    /// The protocol was ticked at this time.
    Ticked { now: u64 },
    ReadyPolled { has_ready: bool, snapshot_in_raft: bool },
    ReadyProcessed,
    Scheduled { made_progress: bool },
}

/// What a [`RunLoop`] holds.
pub struct LoopView {
    pub phase: LoopPhase,
    pub last_tick: u64,
    /// This pass did something.
    pub handled: bool,
    /// Entries that the apply worker has.
    pub machine_applies: Set<u64>,
    /// Entries that the local committer applies itself.
    pub local_applies: Set<u64>,
    /// Committed entries that wait for their turn, in log order.
    pub deferred: Seq<EntryView>,
    /// The apply worker failed on an entry.
    pub failed: bool,
}

/// The loop of a Raft node.
pub struct RunLoop {
    phase: LoopPhase,
    last_tick: u64,
    handled: bool,
    pending_state_machine_applies: IndexSet,
    pending_local_applies: IndexSet,
    deferred_committed_entries: Vec<CommittedEntry>,
    failed: bool,
}

/// The entries of a list of them.
pub open spec fn entry_views(entries: Seq<CommittedEntry>) -> Seq<EntryView> {
    Seq::new(entries.len(), |i: int| entries[i]@)
}

impl View for RunLoop {
    type V = LoopView;

    closed spec fn view(&self) -> LoopView {
        LoopView {
            phase: self.phase,
            last_tick: self.last_tick,
            handled: self.handled,
            machine_applies: self.pending_state_machine_applies@.dom(),
            local_applies: self.pending_local_applies@.dom(),
            deferred: entry_views(self.deferred_committed_entries@),
            failed: self.failed,
        }
    }
}

impl LoopView {
    /// An entry is being applied.
    pub open spec fn apply_in_flight(self) -> bool {
        self.machine_applies != Set::<u64>::empty() || self.local_applies != Set::<u64>::empty()
    }

    /// An entry is being applied or waits for its turn.
    pub open spec fn apply_pending(self) -> bool {
        self.apply_in_flight() || self.deferred.len() > 0
    }

    /// At most one entry is being applied at a time.
    pub open spec fn wf(self) -> bool {
        &&& self.machine_applies.finite()
        &&& self.local_applies.finite()
        &&& self.machine_applies.len() + self.local_applies.len() <= 1
    }

    /// The time of the next tick.
    pub open spec fn next_tick(self) -> u64 {
        if self.last_tick + TICK_INTERVAL <= u64::MAX {
            (self.last_tick + TICK_INTERVAL) as u64
        } else {
            u64::MAX
        }
    }

    /// A tick is due.
    pub open spec fn tick_due(self, now: u64) -> bool {
        now - self.last_tick >= TICK_INTERVAL
    }

    /// Ready work has to wait: it brings a snapshot, which replaces the state
    /// machine, while entries are still to be applied to the old one.
    pub open spec fn ready_blocked(self, snapshot_in_raft: bool) -> bool {
        self.apply_pending() && snapshot_in_raft
    }

    /// The event can come in this phase.
    pub open spec fn expects(self, event: LoopEvent) -> bool {
        match self.phase {
            LoopPhase::Mailbox => event is Resumed || event is MessageHandled || event
                is ShutdownRequested || event is MailboxEmpty || event is MailboxClosed,
            LoopPhase::Applies => event is ApplyHandled || event is AppliesEmpty || event
                is AppliesClosed,
            LoopPhase::Clock => event is Now || event is Ticked,
            LoopPhase::Ready => event is ReadyPolled || event is ReadyProcessed,
            LoopPhase::Schedule => event is Scheduled,
            LoopPhase::Idle => event is MessageHandled || event is ShutdownRequested || event
                is MailboxClosed || event is ApplyHandled || event is AppliesClosed || event
                is Ticked,
        }
    }
}

/// The loop at the start of a pass.
pub open spec fn pass_started(l: LoopView) -> LoopView {
    LoopView { phase: LoopPhase::Mailbox, handled: false, ..l }
}

/// What the loop does after an event, and how it goes on.
pub open spec fn loop_step(l: LoopView, event: LoopEvent) -> (LoopView, LoopAction) {
    match (l.phase, event) {
        (LoopPhase::Mailbox, LoopEvent::Resumed) => (l, LoopAction::TryMailbox),
        (LoopPhase::Mailbox, LoopEvent::MessageHandled) => (
            LoopView { handled: true, ..l },
            LoopAction::TryMailbox,
        ),
        (LoopPhase::Mailbox, LoopEvent::MailboxEmpty) => (
            LoopView { phase: LoopPhase::Applies, ..l },
            LoopAction::TryApplies,
        ),
        (LoopPhase::Applies, LoopEvent::ApplyHandled) => (
            LoopView { handled: true, ..l },
            LoopAction::TryApplies,
        ),
        (LoopPhase::Applies, LoopEvent::AppliesEmpty) => (
            LoopView { phase: LoopPhase::Clock, ..l },
            LoopAction::ReadClock,
        ),
        (LoopPhase::Applies, LoopEvent::AppliesClosed) => if l.machine_applies == Set::<
            u64,
        >::empty() {
            (LoopView { phase: LoopPhase::Clock, ..l }, LoopAction::ReadClock)
        } else {
            (l, LoopAction::FailWorkerGone { pending: l.machine_applies.len() as usize })
        },
        (LoopPhase::Clock, LoopEvent::Now { now }) => if l.tick_due(now) {
            (l, LoopAction::Tick)
        } else {
            (LoopView { phase: LoopPhase::Ready, ..l }, LoopAction::PollReady)
        },
        (LoopPhase::Clock, LoopEvent::Ticked { now }) => (
            LoopView { phase: LoopPhase::Ready, last_tick: now, handled: true, ..l },
            LoopAction::PollReady,
        ),
        (LoopPhase::Ready, LoopEvent::ReadyPolled { has_ready, snapshot_in_raft }) => if has_ready
            && !l.ready_blocked(snapshot_in_raft) {
            (LoopView { handled: true, ..l }, LoopAction::ProcessReady)
        } else {
            (LoopView { phase: LoopPhase::Schedule, ..l }, LoopAction::Schedule)
        },
        (LoopPhase::Ready, LoopEvent::ReadyProcessed) => (l, LoopAction::PollReady),
        (LoopPhase::Schedule, LoopEvent::Scheduled { made_progress }) => if l.handled
            || made_progress {
            (pass_started(l), LoopAction::Yield)
        } else {
            (LoopView { phase: LoopPhase::Idle, ..l }, LoopAction::Wait { until: l.next_tick() })
        },
        (LoopPhase::Idle, LoopEvent::MessageHandled) => (pass_started(l), LoopAction::TryMailbox),
        (LoopPhase::Idle, LoopEvent::ApplyHandled) => (pass_started(l), LoopAction::TryMailbox),
        (LoopPhase::Idle, LoopEvent::AppliesClosed) => if l.machine_applies == Set::<
            u64,
        >::empty() {
            (pass_started(l), LoopAction::TryMailbox)
        } else {
            (l, LoopAction::FailWorkerGone { pending: l.machine_applies.len() as usize })
        },
        (LoopPhase::Idle, LoopEvent::Ticked { now }) => (
            LoopView { last_tick: now, ..pass_started(l) },
            LoopAction::TryMailbox,
        ),
        _ => (l, LoopAction::Stop),
    }
}

/// The loop waits only after a pass in which nothing was done.
pub proof fn loop_waits_only_when_idle(l: LoopView, event: LoopEvent)
    requires
        l.expects(event),
        loop_step(l, event).1 is Wait,
    ensures
        !l.handled,
        event == (LoopEvent::Scheduled { made_progress: false }),
        loop_step(l, event).0.phase == LoopPhase::Idle,
{
}

/// A snapshot is never processed while an entry is still to be applied, and
/// other ready work never waits for an apply: a leader keeps sending
/// heartbeats while its state machine is busy.
pub proof fn apply_holds_up_snapshots_only(l: LoopView, snapshot_in_raft: bool)
    requires
        l.phase == LoopPhase::Ready,
    ensures
        ({
            let event = LoopEvent::ReadyPolled { has_ready: true, snapshot_in_raft };
            loop_step(l, event).1 == LoopAction::ProcessReady <==> !(snapshot_in_raft
                && l.apply_pending())
        }),
{
}

/// The loop ends only on a request, on a closed mailbox, or when the apply
/// worker is gone with work pending.
pub proof fn loop_ends_only_on_cause(l: LoopView, event: LoopEvent)
    requires
        l.expects(event),
        loop_step(l, event).1 is Stop || loop_step(l, event).1 is FailWorkerGone,
    ensures
        loop_step(l, event).1 is Stop ==> event is ShutdownRequested || event is MailboxClosed,
        loop_step(l, event).1 is FailWorkerGone ==> event is AppliesClosed
            && l.machine_applies != Set::<u64>::empty(),
{
}

/// What became of the entry whose turn it is.
#[derive(Clone, Debug, PartialEq, Eq)]
pub enum NextEntry {
    /// No entry waits, or another is still being applied.
    Nothing,
    /// The entry changes the membership: decode, apply and persist it.
    Configuration(CommittedEntry),
    /// The entry carries nothing. The index to make durable comes along.
    Empty { persist: Option<u64> },
    /// A local client waits for the entry: tell it that it committed, and
    /// report whether it could be told.
    Local(CommittedEntry),
    /// Hand the entry to the apply worker.
    Remote(CommittedEntry),
}

/// One step of processing ready work.
#[derive(Clone, Copy, Debug, PartialEq, Eq, Structural)]
pub enum ReadyStep {
    /// Fetch the proof for local proposals, before the role is followed and
    /// before storage takes the snapshot.
    CaptureSnapshotProof,
    FollowSoftState,
    SendMessages,
    /// Make the intent to install the snapshot durable.
    StageSnapshot,
    /// Replace the state machine by the snapshot.
    InstallSnapshot,
    /// Make the snapshot's metadata durable.
    CommitSnapshot,
    /// Account for the installed snapshot.
    FinishSnapshot,
    HandleReadStates,
    /// Make log entries and hard state durable in one batch.
    PersistEntriesAndHardState,
    PersistEntries,
    /// Send what may only be sent once the log is durable.
    SendPersistedMessages,
    /// Queue committed entries.
    DeferCommitted,
    /// Tell the protocol that the log is durable.
    AdvanceAppend,
}

/// What follows once the log is durable.
#[derive(Clone, Copy, Debug, PartialEq, Eq, Structural)]
pub enum LightStep {
    /// Make the new commit index durable.
    PersistCommit { commit: u64 },
    SendMessages,
    DeferCommitted,
    MarkLeaderReady,
}

/// The order in which ready work is processed.
pub open spec fn ready_steps_spec(
    soft_state: bool,
    snapshot: bool,
    hard_state: bool,
) -> Seq<ReadyStep> {
    (if snapshot {
        seq![ReadyStep::CaptureSnapshotProof]
    } else {
        Seq::empty()
    }) + (if soft_state {
        seq![ReadyStep::FollowSoftState]
    } else {
        Seq::empty()
    }) + seq![ReadyStep::SendMessages] + (if snapshot {
        seq![
            ReadyStep::StageSnapshot,
            ReadyStep::InstallSnapshot,
            ReadyStep::CommitSnapshot,
            ReadyStep::FinishSnapshot,
        ]
    } else {
        Seq::empty()
    }) + seq![ReadyStep::HandleReadStates] + (if hard_state {
        seq![ReadyStep::PersistEntriesAndHardState]
    } else {
        seq![ReadyStep::PersistEntries]
    }) + seq![
        ReadyStep::SendPersistedMessages,
        ReadyStep::DeferCommitted,
        ReadyStep::AdvanceAppend,
    ]
}

/// The steps for ready work. A step that fails ends the loop, and no later
/// step is taken.
pub fn ready_steps(soft_state: bool, snapshot: bool, hard_state: bool) -> (r: Vec<ReadyStep>)
    ensures
        r@ == ready_steps_spec(soft_state, snapshot, hard_state),
{
    let mut steps: Vec<ReadyStep> = Vec::new();
    if snapshot {
        steps.push(ReadyStep::CaptureSnapshotProof);
    }
    if soft_state {
        steps.push(ReadyStep::FollowSoftState);
    }
    steps.push(ReadyStep::SendMessages);
    if snapshot {
        steps.push(ReadyStep::StageSnapshot);
        steps.push(ReadyStep::InstallSnapshot);
        steps.push(ReadyStep::CommitSnapshot);
        steps.push(ReadyStep::FinishSnapshot);
    }
    steps.push(ReadyStep::HandleReadStates);
    if hard_state {
        steps.push(ReadyStep::PersistEntriesAndHardState);
    } else {
        steps.push(ReadyStep::PersistEntries);
    }
    steps.push(ReadyStep::SendPersistedMessages);
    steps.push(ReadyStep::DeferCommitted);
    steps.push(ReadyStep::AdvanceAppend);
    assert(steps@ =~= ready_steps_spec(soft_state, snapshot, hard_state));
    steps
}

/// `a` is taken before `b`.
pub open spec fn taken_before(steps: Seq<ReadyStep>, a: ReadyStep, b: ReadyStep) -> bool {
    forall|i: int, j: int|
        0 <= i < steps.len() && 0 <= j < steps.len() && #[trigger] steps[i] == a && #[trigger] steps[j]
            == b ==> i < j
}

/// Nothing that a peer may rely on leaves before the log is durable; a
/// snapshot's intent is durable before the state machine is replaced, and that
/// before the metadata says so; and the proof for local proposals is fetched
/// before leadership can be revoked.
pub proof fn ready_steps_are_ordered(soft_state: bool, snapshot: bool, hard_state: bool)
    ensures
        ({
            let steps = ready_steps_spec(soft_state, snapshot, hard_state);
            &&& taken_before(
                steps,
                ReadyStep::PersistEntriesAndHardState,
                ReadyStep::SendPersistedMessages,
            )
            &&& taken_before(steps, ReadyStep::PersistEntries, ReadyStep::SendPersistedMessages)
            &&& taken_before(steps, ReadyStep::StageSnapshot, ReadyStep::InstallSnapshot)
            &&& taken_before(steps, ReadyStep::InstallSnapshot, ReadyStep::CommitSnapshot)
            &&& taken_before(steps, ReadyStep::CommitSnapshot, ReadyStep::FinishSnapshot)
            &&& taken_before(steps, ReadyStep::FinishSnapshot, ReadyStep::PersistEntries)
            &&& taken_before(
                steps,
                ReadyStep::FinishSnapshot,
                ReadyStep::PersistEntriesAndHardState,
            )
            &&& taken_before(steps, ReadyStep::CaptureSnapshotProof, ReadyStep::FollowSoftState)
            &&& taken_before(steps, ReadyStep::SendPersistedMessages, ReadyStep::AdvanceAppend)
        }),
{
}

/// The steps once the log is durable.
pub open spec fn light_steps_spec(commit: Option<u64>) -> Seq<LightStep> {
    let rest = seq![
        LightStep::SendMessages,
        LightStep::DeferCommitted,
        LightStep::MarkLeaderReady,
    ];
    match commit {
        Some(commit) => seq![LightStep::PersistCommit { commit }] + rest,
        None => rest,
    }
}

/// The steps once the log is durable, with the commit index that the protocol
/// then reports.
pub fn light_steps(commit: Option<u64>) -> (r: Vec<LightStep>)
    ensures
        r@ == light_steps_spec(commit),
{
    let mut steps: Vec<LightStep> = Vec::new();
    if let Some(commit) = commit {
        steps.push(LightStep::PersistCommit { commit });
    }
    steps.push(LightStep::SendMessages);
    steps.push(LightStep::DeferCommitted);
    steps.push(LightStep::MarkLeaderReady);
    assert(steps@ =~= light_steps_spec(commit));
    steps
}

/// What the protocol is told about a snapshot that was sent to a peer.
#[derive(Clone, Copy, Debug, PartialEq, Eq, Structural)]
pub enum SnapshotReport {
    Finish,
    Failure,
}

/// What to report after a message was handed to a peer's queue.
pub fn snapshot_report(is_snapshot: bool, sent: bool) -> (r: Option<SnapshotReport>)
    ensures
        r == (if !is_snapshot {
            None
        } else if sent {
            Some(SnapshotReport::Finish)
        } else {
            Some(SnapshotReport::Failure)
        }),
{
    if !is_snapshot {
        None
    } else if sent {
        Some(SnapshotReport::Finish)
    } else {
        Some(SnapshotReport::Failure)
    }
}

proof fn lemma_empty(set: &IndexSet)
    requires
        set.wf(),
    ensures
        set.keys().len() == 0 <==> set@.dom() == Set::<u64>::empty(),
{
    set.entries_agree();
    if set.keys().len() == 0 {
        assert forall|n: u64| !set@.dom().contains(n) by {
            assert(!set.keys().contains(n));
        }
        assert(set@.dom() =~= Set::<u64>::empty());
    } else {
        assert(set@.dom().contains(set.keys()[0]));
    }
}

proof fn lemma_size(set: &IndexSet)
    requires
        set.wf(),
    ensures
        set@.dom().finite(),
        set@.dom().len() == set.keys().len(),
{
    let keys = set.keys();
    set.entries_agree();
    assert(set@.dom() =~= keys.to_set());
    assert(keys.no_duplicates()) by {
        assert forall|i: int, j: int|
            0 <= i < keys.len() && 0 <= j < keys.len() && i != j implies keys[i] != keys[j] by {
            if i < j {
                assert(keys[i] < keys[j]);
            } else {
                assert(keys[j] < keys[i]);
            }
        }
    }
    keys.unique_seq_to_set();
}

impl RunLoop {
    pub closed spec fn wf(&self) -> bool {
        &&& self.pending_state_machine_applies.wf()
        &&& self.pending_local_applies.wf()
        &&& self@.wf()
    }

    /// What the loop stands for is well formed.
    pub proof fn view_is_wf(&self)
        requires
            self.wf(),
        ensures
            self@.wf(),
    {
    }

    /// The loop before its first pass; its clock starts at `now`.
    pub fn new(now: u64) -> (r: Self)
        ensures
            r.wf(),
            r@ == (LoopView {
                phase: LoopPhase::Mailbox,
                last_tick: now,
                handled: false,
                machine_applies: Set::empty(),
                local_applies: Set::empty(),
                deferred: Seq::empty(),
                failed: false,
            }),
    {
        let r = RunLoop {
            phase: LoopPhase::Mailbox,
            last_tick: now,
            handled: false,
            pending_state_machine_applies: SortedMap::new(),
            pending_local_applies: SortedMap::new(),
            deferred_committed_entries: Vec::new(),
            failed: false,
        };
        proof {
            assert(r@.machine_applies =~= Set::<u64>::empty());
            assert(r@.local_applies =~= Set::<u64>::empty());
            assert(r@.deferred =~= Seq::<EntryView>::empty());
        }
        r
    }

    /// What to do after an event.
    pub fn step(&mut self, event: LoopEvent) -> (r: LoopAction)
        requires
            old(self).wf(),
            old(self)@.expects(event),
        ensures
            final(self).wf(),
            (final(self)@, r) == loop_step(old(self)@, event),
            loop_call(old(self)@, LoopCall::Step { event }, final(self)@),
    {
        proof {
            lemma_empty(&self.pending_state_machine_applies);
            lemma_empty(&self.pending_local_applies);
            lemma_size(&self.pending_state_machine_applies);
        }
        match (self.phase, event) {
            (LoopPhase::Mailbox, LoopEvent::Resumed) => LoopAction::TryMailbox,
            (LoopPhase::Mailbox, LoopEvent::MessageHandled) => {
                self.handled = true;
                LoopAction::TryMailbox
            },
            (LoopPhase::Mailbox, LoopEvent::MailboxEmpty) => {
                self.phase = LoopPhase::Applies;
                LoopAction::TryApplies
            },
            (LoopPhase::Applies, LoopEvent::ApplyHandled) => {
                self.handled = true;
                LoopAction::TryApplies
            },
            (LoopPhase::Applies, LoopEvent::AppliesEmpty) => {
                self.phase = LoopPhase::Clock;
                LoopAction::ReadClock
            },
            (LoopPhase::Applies, LoopEvent::AppliesClosed) => {
                if self.pending_state_machine_applies.len() == 0 {
                    self.phase = LoopPhase::Clock;
                    LoopAction::ReadClock
                } else {
                    LoopAction::FailWorkerGone {
                        pending: self.pending_state_machine_applies.len(),
                    }
                }
            },
            (LoopPhase::Clock, LoopEvent::Now { now }) => {
                if now >= self.last_tick && now - self.last_tick >= TICK_INTERVAL {
                    LoopAction::Tick
                } else {
                    self.phase = LoopPhase::Ready;
                    LoopAction::PollReady
                }
            },
            (LoopPhase::Clock, LoopEvent::Ticked { now }) => {
                self.phase = LoopPhase::Ready;
                self.last_tick = now;
                self.handled = true;
                LoopAction::PollReady
            },
            (LoopPhase::Ready, LoopEvent::ReadyPolled { has_ready, snapshot_in_raft }) => {
                let apply_pending = self.pending_state_machine_applies.len() > 0
                    || self.pending_local_applies.len() > 0
                    || self.deferred_committed_entries.len() > 0;
                if has_ready && !(apply_pending && snapshot_in_raft) {
                    self.handled = true;
                    LoopAction::ProcessReady
                } else {
                    self.phase = LoopPhase::Schedule;
                    LoopAction::Schedule
                }
            },
            (LoopPhase::Ready, LoopEvent::ReadyProcessed) => LoopAction::PollReady,
            (LoopPhase::Schedule, LoopEvent::Scheduled { made_progress }) => {
                if self.handled || made_progress {
                    self.phase = LoopPhase::Mailbox;
                    self.handled = false;
                    LoopAction::Yield
                } else {
                    self.phase = LoopPhase::Idle;
                    LoopAction::Wait { until: self.last_tick.saturating_add(TICK_INTERVAL) }
                }
            },
            (LoopPhase::Idle, LoopEvent::MessageHandled) => {
                self.phase = LoopPhase::Mailbox;
                self.handled = false;
                LoopAction::TryMailbox
            },
            (LoopPhase::Idle, LoopEvent::ApplyHandled) => {
                self.phase = LoopPhase::Mailbox;
                self.handled = false;
                LoopAction::TryMailbox
            },
            (LoopPhase::Idle, LoopEvent::AppliesClosed) => {
                if self.pending_state_machine_applies.len() == 0 {
                    self.phase = LoopPhase::Mailbox;
                    self.handled = false;
                    LoopAction::TryMailbox
                } else {
                    LoopAction::FailWorkerGone {
                        pending: self.pending_state_machine_applies.len(),
                    }
                }
            },
            (LoopPhase::Idle, LoopEvent::Ticked { now }) => {
                self.phase = LoopPhase::Mailbox;
                self.handled = false;
                self.last_tick = now;
                LoopAction::TryMailbox
            },
            _ => LoopAction::Stop,
        }
    }

    /// Queues committed entries, in log order.
    pub fn defer(&mut self, entries: Vec<CommittedEntry>)
        requires
            old(self).wf(),
        ensures
            final(self).wf(),
            final(self)@ == (LoopView {
                deferred: old(self)@.deferred + entry_views(entries@),
                ..old(self)@
            }),
            loop_call(
                old(self)@,
                LoopCall::Defer { entries: entry_views(entries@) },
                final(self)@,
            ),
    {
        let mut entries = entries;
        let ghost added = entries@;
        self.deferred_committed_entries.append(&mut entries);
        proof {
            assert(self@.deferred =~= old(self)@.deferred + entry_views(added));
        }
    }

    /// Takes the next committed entry, unless another is still being applied or
    /// could not be.
    pub fn schedule_next_committed_entry(&mut self, node: &mut RaftNode) -> (r: NextEntry)
        requires
            old(self).wf(),
            old(node).wf(),
        ensures
            final(self).wf(),
            final(node).wf(),
            r is Nothing <==> old(self)@.apply_in_flight() || old(self)@.failed || old(
                self,
            )@.deferred.len() == 0,
            r is Nothing ==> final(self)@ == old(self)@ && final(node)@ == old(node)@,
            !(r is Nothing) ==> {
                let entry = old(self)@.deferred[0];
                let class = raft_node::entry_class(
                    old(node)@,
                    entry.index,
                    entry.kind,
                    entry.data.len() == 0,
                );
                let rest = LoopView { deferred: old(self)@.deferred.drop_first(), ..old(self)@ };
                match r {
                    NextEntry::Nothing => true,
                    NextEntry::Configuration(e) => {
                        &&& class == EntryClass::Configuration
                        &&& e@ == entry
                        &&& final(self)@ == rest
                        &&& final(node)@ == old(node)@
                    },
                    NextEntry::Empty { persist } => {
                        let applied = old(node)@.durable_applied;
                        let frontier = match persist {
                            Some(frontier) => frontier,
                            None => applied,
                        };
                        &&& class == EntryClass::Empty
                        &&& final(self)@ == rest
                        &&& final(node)@ == raft_node::node_applied(
                            old(node)@,
                            entry.index,
                            frontier,
                        )
                        &&& persist is Some ==> frontier > applied
                        &&& entry.index > applied ==> raft_node::is_frontier(
                            applied,
                            raft_node::applied_with(old(node)@, entry.index),
                            frontier,
                        )
                        &&& entry.index <= applied ==> persist is None
                    },
                    NextEntry::Local(e) => {
                        &&& class == EntryClass::Local
                        &&& e@ == entry
                        &&& final(self)@ == rest
                        &&& final(node)@ == (NodeView {
                            proposals: old(node)@.proposals.remove(entry.index),
                            ..old(node)@
                        })
                    },
                    NextEntry::Remote(e) => {
                        &&& class == EntryClass::Remote
                        &&& e@ == entry
                        &&& final(self)@ == (LoopView {
                            machine_applies: set![entry.index],
                            ..rest
                        })
                        &&& final(node)@ == old(node)@
                    },
                }
            },
            r is Configuration || r is Empty ==> loop_call(
                old(self)@,
                LoopCall::Take { fate: EntryFate::Done },
                final(self)@,
            ),
            r is Remote ==> loop_call(
                old(self)@,
                LoopCall::Take { fate: EntryFate::ToWorker },
                final(self)@,
            ),
            r matches NextEntry::Local(e) ==> {
                &&& loop_call(
                    old(self)@,
                    LoopCall::Take { fate: EntryFate::ToClient },
                    LoopView { local_applies: set![e@.index], ..final(self)@ },
                )
                &&& loop_call(
                    old(self)@,
                    LoopCall::Take { fate: EntryFate::ToWorker },
                    LoopView { machine_applies: set![e@.index], ..final(self)@ },
                )
            },
    {
        proof {
            lemma_empty(&self.pending_state_machine_applies);
            lemma_empty(&self.pending_local_applies);
        }
        if self.pending_state_machine_applies.len() > 0 || self.pending_local_applies.len() > 0 {
            return NextEntry::Nothing;
        }
        if self.failed || self.deferred_committed_entries.len() == 0 {
            return NextEntry::Nothing;
        }
        let entry = self.deferred_committed_entries.remove(0);
        proof {
            assert(self@.deferred =~= old(self)@.deferred.drop_first());
            assert(entry@ == old(self)@.deferred[0]);
        }
        let class = node.classify_committed_entry(entry.index, entry.kind, entry.data.len() == 0);
        match class {
            EntryClass::Configuration => NextEntry::Configuration(entry),
            EntryClass::Empty => {
                let persist = node.record_applied_index(entry.index);
                NextEntry::Empty { persist }
            },
            EntryClass::Local => NextEntry::Local(entry),
            EntryClass::Remote => {
                self.hand_to_worker(entry.index);
                NextEntry::Remote(entry)
            },
        }
    }

    /// The entry at `index` goes to the apply worker.
    fn hand_to_worker(&mut self, index: u64)
        requires
            old(self).wf(),
            !old(self)@.apply_in_flight(),
        ensures
            final(self).wf(),
            final(self)@ == (LoopView { machine_applies: set![index], ..old(self)@ }),
    {
        self.pending_state_machine_applies.insert(index, ());
        proof {
            assert(self@.machine_applies =~= set![index]);
            assert(set![index].len() == 1);
        }
    }

    /// The client of a committed local entry was told, or could not be: a told
    /// client applies the entry itself, and an entry without its client goes
    /// to the apply worker. Tells whether it does.
    pub fn local_client_told(&mut self, index: u64, told: bool) -> (r: bool)
        requires
            old(self).wf(),
            !old(self)@.apply_in_flight(),
        ensures
            final(self).wf(),
            r == !told,
            final(self)@ == (if told {
                LoopView { local_applies: set![index], ..old(self)@ }
            } else {
                LoopView { machine_applies: set![index], ..old(self)@ }
            }),
    {
        if told {
            self.pending_local_applies.insert(index, ());
            proof {
                assert(self@.local_applies =~= set![index]);
                assert(set![index].len() == 1);
            }
            false
        } else {
            self.hand_to_worker(index);
            true
        }
    }

    /// The apply worker finished the entry at `index`. A failed apply ends the
    /// loop, and no entry is taken any more; otherwise the index to make durable
    /// comes back, if there is one.
    pub fn finish_state_machine_apply(
        &mut self,
        node: &mut RaftNode,
        index: u64,
        applied: bool,
    ) -> (r: Result<Option<u64>, ()>)
        requires
            old(self).wf(),
            old(node).wf(),
        ensures
            final(self).wf(),
            final(node).wf(),
            final(self)@ == (LoopView {
                machine_applies: old(self)@.machine_applies.remove(index),
                failed: old(self)@.failed || !applied,
                ..old(self)@
            }),
            loop_call(old(self)@, LoopCall::Finish { index, applied }, final(self)@),
            r is Ok <==> applied,
            r is Err ==> final(node)@ == old(node)@,
            r matches Ok(persist) ==> {
                let durable = old(node)@.durable_applied;
                let frontier = match persist {
                    Some(frontier) => frontier,
                    None => durable,
                };
                &&& final(node)@ == raft_node::node_applied(old(node)@, index, frontier)
                &&& persist is Some ==> frontier > durable
                &&& index > durable ==> raft_node::is_frontier(
                    durable,
                    raft_node::applied_with(old(node)@, index),
                    frontier,
                )
                &&& index <= durable ==> persist is None
            },
    {
        self.pending_state_machine_applies.remove(&index);
        proof {
            assert(self@.machine_applies =~= old(self)@.machine_applies.remove(index));
        }
        if !applied {
            self.failed = true;
            return Err(());
        }
        Ok(node.record_applied_index(index))
    }

    /// The local committer applied the entry at `index`, and that is durable.
    pub fn local_apply_recorded(&mut self, index: u64)
        requires
            old(self).wf(),
        ensures
            final(self).wf(),
            final(self)@ == (LoopView {
                local_applies: old(self)@.local_applies.remove(index),
                ..old(self)@
            }),
            loop_call(old(self)@, LoopCall::Recorded { index }, final(self)@),
    {
        self.pending_local_applies.remove(&index);
        proof {
            assert(self@.local_applies =~= old(self)@.local_applies.remove(index));
        }
    }
}

/// What becomes of an entry once its turn has come.
pub enum EntryFate {
    /// It is dealt with at once: it changes the membership, or carries nothing.
    Done,
    /// It goes to the apply worker.
    ToWorker,
    /// It is left to the local client that waits for it.
    ToClient,
}

/// Something that happens to the loop.
pub enum LoopCall {
    Step { event: LoopEvent },
    Defer { entries: Seq<EntryView> },
    /// The next entry is taken, and for one with a local client it is known
    /// whether the client could be told.
    Take { fate: EntryFate },
    /// The apply worker finished an entry.
    Finish { index: u64, applied: bool },
    /// A local client's entry is recorded as applied.
    Recorded { index: u64 },
}

/// What the call makes of the loop.
pub open spec fn loop_call(before: LoopView, call: LoopCall, after: LoopView) -> bool {
    match call {
        LoopCall::Step { event } => before.expects(event) && after == loop_step(before, event).0,
        LoopCall::Defer { entries } => after == (LoopView {
            deferred: before.deferred + entries,
            ..before
        }),
        LoopCall::Take { fate } => {
            let rest = LoopView { deferred: before.deferred.drop_first(), ..before };
            let index = before.deferred[0].index;
            &&& !before.apply_in_flight()
            &&& !before.failed
            &&& before.deferred.len() > 0
            &&& after == (match fate {
                EntryFate::Done => rest,
                EntryFate::ToWorker => LoopView { machine_applies: set![index], ..rest },
                EntryFate::ToClient => LoopView { local_applies: set![index], ..rest },
            })
        },
        LoopCall::Finish { index, applied } => after == (LoopView {
            machine_applies: before.machine_applies.remove(index),
            failed: before.failed || !applied,
            ..before
        }),
        LoopCall::Recorded { index } => after == (LoopView {
            local_applies: before.local_applies.remove(index),
            ..before
        }),
    }
}

/// The loop was in these states, one after the other, by these calls.
pub open spec fn is_run(states: Seq<LoopView>, calls: Seq<LoopCall>) -> bool {
    &&& states.len() == calls.len() + 1
    &&& states[0].wf()
    &&& !states[0].apply_pending()
    &&& !states[0].failed
    &&& forall|i: int|
        0 <= i < calls.len() ==> loop_call(states[i], #[trigger] calls[i], states[i + 1])
}

/// The apply worker is done with the entry at `index`, applied or not.
pub open spec fn finishes(call: LoopCall, index: u64) -> bool {
    call matches LoopCall::Finish { index: finished, applied } && finished == index
}

/// The entries that were queued by the first `n` calls.
pub open spec fn queued(calls: Seq<LoopCall>, n: nat) -> Seq<EntryView>
    decreases n,
{
    if n == 0 {
        Seq::empty()
    } else {
        let before = queued(calls, (n - 1) as nat);
        match calls[n - 1] {
            LoopCall::Defer { entries } => before + entries,
            _ => before,
        }
    }
}

/// The entries that were taken by the first `n` calls.
pub open spec fn taken(states: Seq<LoopView>, calls: Seq<LoopCall>, n: nat) -> Seq<EntryView>
    decreases n,
{
    if n == 0 {
        Seq::empty()
    } else {
        let before = taken(states, calls, (n - 1) as nat);
        match calls[n - 1] {
            LoopCall::Take { fate } => before.push(states[n - 1].deferred[0]),
            _ => before,
        }
    }
}

/// The entries stand in the order of the log.
pub open spec fn in_log_order(entries: Seq<EntryView>) -> bool {
    forall|i: int, j: int|
        0 <= i < j < entries.len() ==> (#[trigger] entries[i]).index < (
        #[trigger] entries[j]).index
}

proof fn lemma_queue(states: Seq<LoopView>, calls: Seq<LoopCall>, n: nat)
    requires
        is_run(states, calls),
        n < states.len(),
    ensures
        taken(states, calls, n) + states[n as int].deferred == queued(calls, n),
    decreases n,
{
    if n == 0 {
        assert(states[0].deferred =~= Seq::empty());
        assert(taken(states, calls, 0) + states[0].deferred =~= queued(calls, 0));
    } else {
        lemma_queue(states, calls, (n - 1) as nat);
        assert(loop_call(states[n - 1], calls[n - 1], states[n - 1 + 1]));
        let before = taken(states, calls, (n - 1) as nat);
        let waiting = states[n - 1].deferred;
        match calls[n - 1] {
            LoopCall::Defer { entries } => {
                assert(before + (waiting + entries) =~= (before + waiting) + entries);
            },
            LoopCall::Take { fate } => {
                assert(before.push(waiting[0]) + waiting.drop_first() =~= before + waiting);
            },
            LoopCall::Step { event } => {
                assert(states[n as int].deferred == waiting);
            },
            _ => {},
        }
    }
}

/// Over a whole run, each committed entry is taken in its turn, once: what was
/// taken and what still waits are the queued entries, in their order. Queued in
/// the order of the log, entries are taken in ascending index.
pub proof fn entries_are_taken_in_log_order(
    states: Seq<LoopView>,
    calls: Seq<LoopCall>,
    n: nat,
)
    requires
        is_run(states, calls),
        n < states.len(),
    ensures
        taken(states, calls, n) + states[n as int].deferred == queued(calls, n),
        in_log_order(queued(calls, n)) ==> in_log_order(taken(states, calls, n)),
{
    lemma_queue(states, calls, n);
    let done = taken(states, calls, n);
    let all = queued(calls, n);
    if in_log_order(all) {
        assert forall|i: int, j: int| 0 <= i < j < done.len() implies (#[trigger] done[i]).index < (
        #[trigger] done[j]).index by {
            assert(all[i] == done[i]);
            assert(all[j] == done[j]);
        }
    }
}

/// Over a whole run, at most one entry is with the worker or with a local client
/// at any time.
pub proof fn at_most_one_entry_is_applied(states: Seq<LoopView>, calls: Seq<LoopCall>, n: int)
    requires
        is_run(states, calls),
        0 <= n < states.len(),
    ensures
        states[n].wf(),
    decreases n,
{
    if n > 0 {
        at_most_one_entry_is_applied(states, calls, n - 1);
        let before = states[n - 1];
        assert(loop_call(states[n - 1], calls[n - 1], states[n - 1 + 1]));
        match calls[n - 1] {
            LoopCall::Take { fate } => {
                let index = before.deferred[0].index;
                assert(set![index].len() == 1);
                assert(before.machine_applies.len() == 0);
                assert(before.local_applies.len() == 0);
            },
            _ => {},
        }
    }
}

proof fn lemma_still_applying(
    states: Seq<LoopView>,
    calls: Seq<LoopCall>,
    index: u64,
    local: bool,
    from: int,
    n: int,
)
    requires
        is_run(states, calls),
        0 <= from <= n < states.len(),
        local ==> states[from].local_applies.contains(index),
        !local ==> states[from].machine_applies.contains(index),
        forall|k: int|
            from <= k < n ==> if local {
                #[trigger] calls[k] != (LoopCall::Recorded { index })
            } else {
                !finishes(calls[k], index)
            },
    ensures
        local ==> states[n].local_applies.contains(index),
        !local ==> states[n].machine_applies.contains(index),
    decreases n - from,
{
    if from < n {
        lemma_still_applying(states, calls, index, local, from, n - 1);
        assert(loop_call(states[n - 1], calls[n - 1], states[n - 1 + 1]));
        let before = states[n - 1];
        assert(before.apply_in_flight());
    }
}

/// Over a whole run, one entry is applied after the other: none is taken before
/// the worker is done with the one before it, or its client's work is recorded.
pub proof fn one_apply_at_a_time(
    states: Seq<LoopView>,
    calls: Seq<LoopCall>,
    first: int,
    second: int,
    fate: EntryFate,
    other: EntryFate,
)
    requires
        is_run(states, calls),
        0 <= first < second < calls.len(),
        calls[first] == (LoopCall::Take { fate }),
        calls[second] == (LoopCall::Take { fate: other }),
    ensures
        !states[second].apply_in_flight(),
        fate is ToWorker ==> exists|k: int|
            first < k < second && finishes(
                #[trigger] calls[k],
                states[first].deferred[0].index,
            ),
        fate is ToClient ==> exists|k: int|
            first < k < second && #[trigger] calls[k] == (LoopCall::Recorded {
                index: states[first].deferred[0].index,
            }),
{
    let index = states[first].deferred[0].index;
    assert(loop_call(states[first], calls[first], states[first + 1]));
    assert(loop_call(states[second], calls[second], states[second + 1]));
    if fate is ToWorker && !(exists|k: int|
        first < k < second && finishes(#[trigger] calls[k], index)) {
        lemma_still_applying(states, calls, index, false, first + 1, second);
    }
    if fate is ToClient && !(exists|k: int|
        first < k < second && #[trigger] calls[k] == (LoopCall::Recorded { index })) {
        lemma_still_applying(states, calls, index, true, first + 1, second);
    }
}

/// Over a whole run, nothing is taken once an apply has failed.
pub proof fn nothing_is_taken_after_a_failed_apply(
    states: Seq<LoopView>,
    calls: Seq<LoopCall>,
    index: u64,
    failed: int,
    later: int,
)
    requires
        is_run(states, calls),
        0 <= failed < later < calls.len(),
        calls[failed] == (LoopCall::Finish { index, applied: false }),
    ensures
        !(calls[later] is Take),
        states[later].failed,
    decreases later - failed,
{
    assert(loop_call(states[failed], calls[failed], states[failed + 1]));
    if failed + 1 < later {
        nothing_is_taken_after_a_failed_apply(states, calls, index, failed, later - 1);
        assert(loop_call(states[later - 1], calls[later - 1], states[later - 1 + 1]));
    }
    assert(loop_call(states[later], calls[later], states[later + 1]));
}

/// No event changes which entries are being applied or wait, and only a tick moves
/// the time of the last tick.
pub proof fn steps_leave_the_entries_alone(l: LoopView, event: LoopEvent)
    requires
        l.expects(event),
    ensures
        ({
            let after = loop_step(l, event).0;
            &&& after.machine_applies == l.machine_applies
            &&& after.local_applies == l.local_applies
            &&& after.deferred == l.deferred
            &&& after.failed == l.failed
            &&& event matches LoopEvent::Ticked { now } ==> after.last_tick == now
            &&& !(event is Ticked) ==> after.last_tick == l.last_tick
        }),
{
}

/// A pass goes from the mailbox to the finished applies, to the clock, to what is
/// ready and to the waiting entries, and each is left only when there is nothing
/// more of it.
pub proof fn passes_go_through_all_phases(l: LoopView, event: LoopEvent)
    requires
        l.expects(event),
        !(event is ShutdownRequested),
        !(event is MailboxClosed),
        !(event is AppliesClosed),
    ensures
        ({
            let (after, action) = loop_step(l, event);
            match l.phase {
                LoopPhase::Mailbox => if event is MailboxEmpty {
                    after.phase == LoopPhase::Applies && action == LoopAction::TryApplies
                } else {
                    after.phase == LoopPhase::Mailbox && action == LoopAction::TryMailbox
                },
                LoopPhase::Applies => if event is AppliesEmpty {
                    after.phase == LoopPhase::Clock && action == LoopAction::ReadClock
                } else {
                    after.phase == LoopPhase::Applies && action == LoopAction::TryApplies
                },
                LoopPhase::Clock => match event {
                    LoopEvent::Now { now } => if l.last_tick + 100_000_000 <= now {
                        after.phase == LoopPhase::Clock && action == LoopAction::Tick
                    } else {
                        after.phase == LoopPhase::Ready && action == LoopAction::PollReady
                    },
                    _ => after.phase == LoopPhase::Ready && action == LoopAction::PollReady,
                },
                LoopPhase::Ready => match event {
                    LoopEvent::ReadyPolled { has_ready, snapshot_in_raft } => if has_ready && !(
                    snapshot_in_raft && (l.machine_applies != Set::<u64>::empty()
                        || l.local_applies != Set::<u64>::empty() || l.deferred.len() > 0)) {
                        after.phase == LoopPhase::Ready && action == LoopAction::ProcessReady
                    } else {
                        after.phase == LoopPhase::Schedule && action == LoopAction::Schedule
                    },
                    _ => after.phase == LoopPhase::Ready && action == LoopAction::PollReady,
                },
                LoopPhase::Schedule => match event {
                    LoopEvent::Scheduled { made_progress } => if l.handled || made_progress {
                        after.phase == LoopPhase::Mailbox && action == LoopAction::Yield
                    } else {
                        after.phase == LoopPhase::Idle && action is Wait
                    },
                    _ => false,
                },
                LoopPhase::Idle => after.phase == LoopPhase::Mailbox && action
                    == LoopAction::TryMailbox,
            }
        }),
{
}

/// The loop ends where it is asked to or its mailbox is closed, and fails where the
/// worker is gone with entries in its hands, of which it tells how many. Without
/// such entries it goes on.
pub proof fn the_loop_ends_when_it_must(l: LoopView, event: LoopEvent)
    requires
        l.expects(event),
    ensures
        event is ShutdownRequested || event is MailboxClosed ==> loop_step(l, event).1
            == LoopAction::Stop,
        event is AppliesClosed && l.machine_applies != Set::<u64>::empty() ==> loop_step(
            l,
            event,
        ).1 == (LoopAction::FailWorkerGone { pending: l.machine_applies.len() as usize }),
        event is AppliesClosed && l.machine_applies == Set::<u64>::empty() ==> loop_step(l, event).1
            == (if l.phase == LoopPhase::Idle {
            LoopAction::TryMailbox
        } else {
            LoopAction::ReadClock
        }),
{
}

/// The loop waits until the next tick, a tenth of a second behind the last one.
pub proof fn the_loop_waits_for_the_next_tick(l: LoopView)
    requires
        l.phase == LoopPhase::Schedule,
        !l.handled,
        l.last_tick + 100_000_000 <= u64::MAX,
    ensures
        loop_step(l, LoopEvent::Scheduled { made_progress: false }).1 == (LoopAction::Wait {
            until: (l.last_tick + 100_000_000) as u64,
        }),
{
}

/// A pass counts as one in which something was done from the first message, apply,
/// tick or ready work on, until the next pass begins.
pub proof fn work_is_remembered_through_the_pass(l: LoopView, event: LoopEvent)
    requires
        l.expects(event),
        l.phase != LoopPhase::Idle,
    ensures
        ({
            let (after, action) = loop_step(l, event);
            let worked = event is MessageHandled || event is ApplyHandled || event is Ticked
                || action == LoopAction::ProcessReady;
            &&& worked ==> after.handled
            &&& action == LoopAction::Yield ==> !after.handled
            &&& !worked && action != LoopAction::Yield ==> after.handled == l.handled
        }),
{
}

/// An entry is being applied where one is with the worker or with a local client.
pub proof fn applies_are_in_flight_with_worker_or_client(l: LoopView, index: u64)
    ensures
        l.machine_applies.contains(index) || l.local_applies.contains(index)
            ==> l.apply_in_flight(),
        (forall|i: u64| !l.machine_applies.contains(i) && !l.local_applies.contains(i))
            ==> !l.apply_in_flight(),
        l.apply_pending() <==> l.apply_in_flight() || l.deferred.len() > 0,
{
    if forall|i: u64| !l.machine_applies.contains(i) && !l.local_applies.contains(i) {
        assert(l.machine_applies =~= Set::<u64>::empty());
        assert(l.local_applies =~= Set::<u64>::empty());
    }
}

/// Where each step of ready work stands among the others.
pub open spec fn step_rank(step: ReadyStep) -> int {
    match step {
        ReadyStep::CaptureSnapshotProof => 0,
        ReadyStep::FollowSoftState => 1,
        ReadyStep::SendMessages => 2,
        ReadyStep::StageSnapshot => 3,
        ReadyStep::InstallSnapshot => 4,
        ReadyStep::CommitSnapshot => 5,
        ReadyStep::FinishSnapshot => 6,
        ReadyStep::HandleReadStates => 7,
        ReadyStep::PersistEntriesAndHardState => 8,
        ReadyStep::PersistEntries => 8,
        ReadyStep::SendPersistedMessages => 9,
        ReadyStep::DeferCommitted => 10,
        ReadyStep::AdvanceAppend => 11,
    }
}

/// Ready work takes each step that it needs, once, and no other: those of a
/// snapshot where it brings one, the role where it changed, and the hard state with
/// the entries where there is one. The steps stand in one order.
pub proof fn ready_work_takes_the_steps_it_needs(
    soft_state: bool,
    snapshot: bool,
    hard_state: bool,
    step: ReadyStep,
)
    ensures
        ({
            let steps = ready_steps_spec(soft_state, snapshot, hard_state);
            let needed = match step {
                ReadyStep::CaptureSnapshotProof | ReadyStep::StageSnapshot
                | ReadyStep::InstallSnapshot | ReadyStep::CommitSnapshot
                | ReadyStep::FinishSnapshot => snapshot,
                ReadyStep::FollowSoftState => soft_state,
                ReadyStep::PersistEntriesAndHardState => hard_state,
                ReadyStep::PersistEntries => !hard_state,
                _ => true,
            };
            &&& steps.contains(step) <==> needed
            &&& forall|i: int, j: int|
                0 <= i < j < steps.len() ==> step_rank(#[trigger] steps[i]) < step_rank(
                    #[trigger] steps[j],
                )
        }),
{
    let steps = ready_steps_spec(soft_state, snapshot, hard_state);
    let a = if snapshot {
        1int
    } else {
        0
    };
    let b = a + if soft_state {
        1int
    } else {
        0
    };
    let c = b + 1 + if snapshot {
        4int
    } else {
        0
    };
    assert(steps.len() == c + 5);
    if snapshot {
        assert(steps[0] == ReadyStep::CaptureSnapshotProof);
        assert(steps[b + 1] == ReadyStep::StageSnapshot);
        assert(steps[b + 2] == ReadyStep::InstallSnapshot);
        assert(steps[b + 3] == ReadyStep::CommitSnapshot);
        assert(steps[b + 4] == ReadyStep::FinishSnapshot);
    }
    if soft_state {
        assert(steps[a] == ReadyStep::FollowSoftState);
    }
    assert(steps[b] == ReadyStep::SendMessages);
    assert(steps[c] == ReadyStep::HandleReadStates);
    if hard_state {
        assert(steps[c + 1] == ReadyStep::PersistEntriesAndHardState);
    } else {
        assert(steps[c + 1] == ReadyStep::PersistEntries);
    }
    assert(steps[c + 2] == ReadyStep::SendPersistedMessages);
    assert(steps[c + 3] == ReadyStep::DeferCommitted);
    assert(steps[c + 4] == ReadyStep::AdvanceAppend);
}

/// Once the log is durable, a new commit index is made durable first where there is
/// one, then messages go out, entries are queued, and the leader may become ready.
pub proof fn commits_are_durable_before_messages_go_out(commit: u64)
    ensures
        light_steps_spec(Some(commit)) == seq![
            LightStep::PersistCommit { commit },
            LightStep::SendMessages,
            LightStep::DeferCommitted,
            LightStep::MarkLeaderReady,
        ],
        light_steps_spec(None) == light_steps_spec(Some(commit)).skip(1),
{
    assert(light_steps_spec(None) =~= light_steps_spec(Some(commit)).skip(1));
}

/// Whatever comes of what the loop has done is expected: it asks for nothing
/// that it cannot go on from.
pub proof fn every_answer_is_expected(l: LoopView, event: LoopEvent, answer: LoopEvent)
    ensures
        ({
            let (next, action) = loop_step(l, event);
            let of_mailbox = answer is MessageHandled || answer is ShutdownRequested || answer
                is MailboxClosed;
            let of_applies = answer is ApplyHandled || answer is AppliesClosed;
            &&& action is TryMailbox && (of_mailbox || answer is MailboxEmpty) ==> next.expects(
                answer,
            )
            &&& action is TryApplies && (of_applies || answer is AppliesEmpty) ==> next.expects(
                answer,
            )
            &&& action is ReadClock && answer is Now ==> next.expects(answer)
            &&& action is Tick && answer is Ticked ==> next.expects(answer)
            &&& action is PollReady && answer is ReadyPolled ==> next.expects(answer)
            &&& action is ProcessReady && answer is ReadyProcessed ==> next.expects(answer)
            &&& action is Schedule && answer is Scheduled ==> next.expects(answer)
            &&& action is Yield && answer is Resumed ==> next.expects(answer)
            &&& action is Wait && (of_mailbox || of_applies || answer is Ticked) ==> next.expects(
                answer,
            )
        }),
{
}

} // verus!
