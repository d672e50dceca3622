//! The durable state of a Raft group: what is kept beside the log, and in
//! which batches it is written.
//!
//! A batch is written as a whole or not at all. Each function here says what
//! to write; once it is written, [`ConvexRaftStorage::written`] takes it in. So
//! a write that fails changes nothing.
//!
//! The commit index and the applied index are not the same: an entry is
//! committed once a quorum has it, and applied once this node has installed it.

use vstd::prelude::*;

use crate::big_endian;
use crate::partition::PartitionId;
use crate::raft_node::EntryKind;
use crate::raft_snapshot;
use crate::raft_snapshot::RaftSnapshotError;
use crate::text;

verus! {

/// The key of the term, the vote and the commit index.
pub const HARD_STATE_KEY: &'static str = "hard_state";

/// The key of the membership.
pub const CONF_STATE_KEY: &'static str = "conf_state";

/// The key of the highest index that is durably applied.
pub const APPLIED_INDEX_KEY: &'static str = "applied_index";

/// The key of the newest installed snapshot.
pub const SNAPSHOT_KEY: &'static str = "snapshot";

/// The key of a snapshot that is to be installed. It is written before
/// anything else is changed, so that the installation can be taken up again
/// after a crash.
pub const PENDING_SNAPSHOT_KEY: &'static str = "pending_snapshot";

/// The key of the hard state that goes with a snapshot that is to be
/// installed.
pub const PENDING_SNAPSHOT_HARD_STATE_KEY: &'static str = "pending_snapshot_hard_state";

/// The term, the vote and the commit index.
#[derive(Clone, Copy, Debug, PartialEq, Eq, Structural)]
pub struct HardState {
    pub term: u64,
    pub vote: u64,
    pub commit: u64,
}

/// The members of the group. During a change, the voters that go and the
/// learners that come are there too.
#[derive(Clone, Debug, PartialEq, Eq)]
pub struct ConfState {
    pub voters: Vec<u64>,
    pub learners: Vec<u64>,
    pub voters_outgoing: Vec<u64>,
    pub learners_next: Vec<u64>,
    pub auto_leave: bool,
}

/// What a [`ConfState`] states.
#[verifier::ext_equal]
pub struct ConfStateView {
    pub voters: Seq<u64>,
    pub learners: Seq<u64>,
    pub voters_outgoing: Seq<u64>,
    pub learners_next: Seq<u64>,
    pub auto_leave: bool,
}

impl View for ConfState {
    type V = ConfStateView;

    open spec fn view(&self) -> ConfStateView {
        ConfStateView {
            voters: self.voters@,
            learners: self.learners@,
            voters_outgoing: self.voters_outgoing@,
            learners_next: self.learners_next@,
            auto_leave: self.auto_leave,
        }
    }
}

/// Whether the numbers are the same, one by one.
fn same_numbers(a: &Vec<u64>, b: &Vec<u64>) -> (r: bool)
    ensures
        r == (a@ == b@),
{
    if a.len() != b.len() {
        return false;
    }
    let mut i: usize = 0;
    while i < a.len()
        invariant
            i <= a@.len(),
            a@.len() == b@.len(),
            forall|k: int| 0 <= k < i ==> a@[k] == b@[k],
        decreases a@.len() - i,
    {
        if a[i] != b[i] {
            return false;
        }
        i = i + 1;
    }
    assert(a@ =~= b@);
    true
}

impl ConfState {
    /// A group of these voters.
    pub fn of_voters(voters: Vec<u64>) -> (r: Self)
        ensures
            r@ == voters_only(voters@),
    {
        let r = ConfState {
            voters,
            learners: Vec::new(),
            voters_outgoing: Vec::new(),
            learners_next: Vec::new(),
            auto_leave: false,
        };
        assert(r@ =~= voters_only(voters@));
        r
    }

    pub fn same(&self, other: &Self) -> (r: bool)
        ensures
            r == (self@ == other@),
    {
        same_numbers(&self.voters, &other.voters) && same_numbers(&self.learners, &other.learners)
            && same_numbers(&self.voters_outgoing, &other.voters_outgoing) && same_numbers(
            &self.learners_next,
            &other.learners_next,
        ) && self.auto_leave == other.auto_leave
    }

    pub fn duplicate(&self) -> (r: Self)
        ensures
            r@ == self@,
    {
        ConfState {
            voters: self.voters.clone(),
            learners: self.learners.clone(),
            voters_outgoing: self.voters_outgoing.clone(),
            learners_next: self.learners_next.clone(),
            auto_leave: self.auto_leave,
        }
    }
}

/// A group of these voters.
pub open spec fn voters_only(voters: Seq<u64>) -> ConfStateView {
    ConfStateView {
        voters,
        learners: Seq::empty(),
        voters_outgoing: Seq::empty(),
        learners_next: Seq::empty(),
        auto_leave: false,
    }
}

/// A snapshot: the place in the log that it stands for, the members there, and
/// the payload.
#[derive(Clone, Debug, PartialEq, Eq)]
pub struct Snapshot {
    pub index: u64,
    pub term: u64,
    pub conf_state: ConfState,
    pub data: Vec<u8>,
}

/// What a [`Snapshot`] states.
#[verifier::ext_equal]
pub struct SnapshotView {
    pub index: u64,
    pub term: u64,
    pub conf_state: ConfStateView,
    pub data: Seq<u8>,
}

impl View for Snapshot {
    type V = SnapshotView;

    open spec fn view(&self) -> SnapshotView {
        SnapshotView {
            index: self.index,
            term: self.term,
            conf_state: self.conf_state@,
            data: self.data@,
        }
    }
}

impl Snapshot {
    pub fn same(&self, other: &Self) -> (r: bool)
        ensures
            r == (self@ == other@),
    {
        self.index == other.index && self.term == other.term && self.conf_state.same(
            &other.conf_state,
        ) && crate::invalidation::same_bytes(&self.data, &other.data)
    }

    pub fn duplicate(&self) -> (r: Self)
        ensures
            r@ == self@,
    {
        Snapshot {
            index: self.index,
            term: self.term,
            conf_state: self.conf_state.duplicate(),
            data: self.data.clone(),
        }
    }
}

/// A snapshot that is to be installed, with the hard state that goes with it.
#[derive(Clone, Debug)]
pub struct PendingSnapshotInstall {
    pub snapshot: Snapshot,
    pub hard_state: HardState,
}

/// What a [`PendingSnapshotInstall`] states.
pub struct PendingView {
    pub snapshot: SnapshotView,
    pub hard_state: HardState,
}

impl View for PendingSnapshotInstall {
    type V = PendingView;

    open spec fn view(&self) -> PendingView {
        PendingView { snapshot: self.snapshot@, hard_state: self.hard_state }
    }
}

/// An entry of the log.
#[derive(Clone, Debug, PartialEq, Eq)]
pub struct LogEntry {
    pub index: u64,
    pub term: u64,
    pub kind: EntryKind,
    pub data: Vec<u8>,
    pub context: Vec<u8>,
}

/// What a [`LogEntry`] states.
#[verifier::ext_equal]
pub struct LogEntryView {
    pub index: u64,
    pub term: u64,
    pub kind: EntryKind,
    pub data: Seq<u8>,
    pub context: Seq<u8>,
}

impl View for LogEntry {
    type V = LogEntryView;

    open spec fn view(&self) -> LogEntryView {
        LogEntryView {
            index: self.index,
            term: self.term,
            kind: self.kind,
            data: self.data@,
            context: self.context@,
        }
    }
}

/// The views of entries.
pub open spec fn entries_view(entries: Seq<LogEntry>) -> Seq<LogEntryView> {
    Seq::new(entries.len(), |i: int| entries[i]@)
}

/// One change to the durable state.
#[derive(Clone, Debug)]
pub enum RegionWrite {
    /// Remove the log and every key.
    Clean,
    /// Append to the log. The engine keeps the log itself.
    Entries(Vec<LogEntry>),
    HardState(HardState),
    ConfState(ConfState),
    AppliedIndex(Vec<u8>),
    Snapshot(Snapshot),
    PendingSnapshot(Snapshot),
    PendingHardState(HardState),
}

/// What a [`RegionWrite`] states.
pub enum WriteView {
    Clean,
    Entries(Seq<LogEntryView>),
    HardState(HardState),
    ConfState(ConfStateView),
    AppliedIndex(Seq<u8>),
    Snapshot(SnapshotView),
    PendingSnapshot(SnapshotView),
    PendingHardState(HardState),
}

impl View for RegionWrite {
    type V = WriteView;

    open spec fn view(&self) -> WriteView {
        match self {
            RegionWrite::Clean => WriteView::Clean,
            RegionWrite::Entries(entries) => WriteView::Entries(entries_view(entries@)),
            RegionWrite::HardState(hs) => WriteView::HardState(*hs),
            RegionWrite::ConfState(cs) => WriteView::ConfState(cs@),
            RegionWrite::AppliedIndex(raw) => WriteView::AppliedIndex(raw@),
            RegionWrite::Snapshot(snapshot) => WriteView::Snapshot(snapshot@),
            RegionWrite::PendingSnapshot(snapshot) => WriteView::PendingSnapshot(snapshot@),
            RegionWrite::PendingHardState(hs) => WriteView::PendingHardState(*hs),
        }
    }
}

/// What is kept under each key.
#[derive(Clone, Debug)]
pub struct RegionState {
    pub hard_state: Option<HardState>,
    pub conf_state: Option<ConfState>,
    pub applied_index: Option<Vec<u8>>,
    pub snapshot: Option<Snapshot>,
    pub pending_snapshot: Option<Snapshot>,
    pub pending_hard_state: Option<HardState>,
}

/// What a [`RegionState`] states.
#[verifier::ext_equal]
pub struct RegionView {
    pub hard_state: Option<HardState>,
    pub conf_state: Option<ConfStateView>,
    pub applied_index: Option<Seq<u8>>,
    pub snapshot: Option<SnapshotView>,
    pub pending_snapshot: Option<SnapshotView>,
    pub pending_hard_state: Option<HardState>,
}

/// The view of members that may be missing.
pub open spec fn conf_state_view(cs: Option<ConfState>) -> Option<ConfStateView> {
    match cs {
        Some(cs) => Some(cs@),
        None => None,
    }
}

/// The view of a snapshot that may be missing.
pub open spec fn snapshot_view(snapshot: Option<Snapshot>) -> Option<SnapshotView> {
    match snapshot {
        Some(snapshot) => Some(snapshot@),
        None => None,
    }
}

impl View for RegionState {
    type V = RegionView;

    open spec fn view(&self) -> RegionView {
        RegionView {
            hard_state: self.hard_state,
            conf_state: conf_state_view(self.conf_state),
            applied_index: crate::checkpoint::optional_bytes(self.applied_index),
            snapshot: snapshot_view(self.snapshot),
            pending_snapshot: snapshot_view(self.pending_snapshot),
            pending_hard_state: self.pending_hard_state,
        }
    }
}

/// The state of a group that has never been written.
pub open spec fn empty_region() -> RegionView {
    RegionView {
        hard_state: None,
        conf_state: None,
        applied_index: None,
        snapshot: None,
        pending_snapshot: None,
        pending_hard_state: None,
    }
}

/// The durable state after one change.
pub open spec fn changed(region: RegionView, write: WriteView) -> RegionView {
    match write {
        WriteView::Clean => empty_region(),
        WriteView::Entries(_) => region,
        WriteView::HardState(hs) => RegionView { hard_state: Some(hs), ..region },
        WriteView::ConfState(cs) => RegionView { conf_state: Some(cs), ..region },
        WriteView::AppliedIndex(raw) => RegionView { applied_index: Some(raw), ..region },
        WriteView::Snapshot(snapshot) => RegionView { snapshot: Some(snapshot), ..region },
        WriteView::PendingSnapshot(snapshot) => RegionView {
            pending_snapshot: Some(snapshot),
            ..region
        },
        WriteView::PendingHardState(hs) => RegionView { pending_hard_state: Some(hs), ..region },
    }
}

/// The durable state after a batch.
pub open spec fn after_batch(region: RegionView, batch: Seq<WriteView>) -> RegionView
    decreases batch.len(),
{
    if batch.len() == 0 {
        region
    } else {
        after_batch(changed(region, batch[0]), batch.skip(1))
    }
}

/// The batch that appends entries: nothing for none.
pub open spec fn appended(entries: Seq<LogEntryView>) -> Seq<WriteView> {
    if entries.len() == 0 {
        Seq::empty()
    } else {
        seq![WriteView::Entries(entries)]
    }
}

/// The views of a batch.
pub open spec fn batch_view(batch: Seq<RegionWrite>) -> Seq<WriteView> {
    Seq::new(batch.len(), |i: int| batch[i]@)
}

impl RegionState {
    pub fn new() -> (r: Self)
        ensures
            r@ == empty_region(),
    {
        RegionState {
            hard_state: None,
            conf_state: None,
            applied_index: None,
            snapshot: None,
            pending_snapshot: None,
            pending_hard_state: None,
        }
    }

    /// Takes in one change.
    fn change(&mut self, write: &RegionWrite)
        ensures
            final(self)@ == changed(old(self)@, write@),
    {
        match write {
            RegionWrite::Clean => {
                *self = RegionState::new();
            },
            RegionWrite::Entries(_) => {},
            RegionWrite::HardState(hs) => {
                self.hard_state = Some(*hs);
            },
            RegionWrite::ConfState(cs) => {
                self.conf_state = Some(cs.duplicate());
            },
            RegionWrite::AppliedIndex(raw) => {
                self.applied_index = Some(raw.clone());
            },
            RegionWrite::Snapshot(snapshot) => {
                self.snapshot = Some(snapshot.duplicate());
            },
            RegionWrite::PendingSnapshot(snapshot) => {
                self.pending_snapshot = Some(snapshot.duplicate());
            },
            RegionWrite::PendingHardState(hs) => {
                self.pending_hard_state = Some(*hs);
            },
        }
    }

    /// Takes in a batch that has been written.
    pub fn apply(&mut self, batch: &Vec<RegionWrite>)
        ensures
            final(self)@ == after_batch(old(self)@, batch_view(batch@)),
    {
        let ghost all = batch_view(batch@);
        assert(all.skip(0) =~= all);
        let mut i: usize = 0;
        while i < batch.len()
            invariant
                i <= batch@.len(),
                all == batch_view(batch@),
                after_batch(old(self)@, all) == after_batch(self@, all.skip(i as int)),
            decreases batch@.len() - i,
        {
            proof {
                assert(all.skip(i as int)[0] == batch@[i as int]@);
                assert(all.skip(i as int).skip(1) =~= all.skip(i + 1));
            }
            self.change(&batch[i]);
            i = i + 1;
        }
        assert(all.skip(i as int).len() == 0);
    }
}

/// Why the durable state cannot be read or written as asked.
#[derive(Clone, Debug, PartialEq, Eq)]
pub enum RaftStorageError {
    /// The bytes under the key of the applied index are no index.
    InvalidAppliedIndex { raw: Vec<u8> },
    AppliedIndexBackwards,
    StaleSnapshot { index: u64, applied: u64 },
    Snapshot(RaftSnapshotError),
    OtherSnapshotPending { index: u64 },
    IncompleteIntent,
    NothingStaged,
    CommitMismatch { commit: u64, index: u64 },
    /// The entry is gone from the log.
    Compacted,
    SnapshotTemporarilyUnavailable,
}

/// What a [`RaftStorageError`] states.
#[verifier::ext_equal]
pub enum StorageErrorView {
    InvalidAppliedIndex { raw: Seq<u8> },
    AppliedIndexBackwards,
    StaleSnapshot { index: u64, applied: u64 },
    Snapshot(RaftSnapshotError),
    OtherSnapshotPending { index: u64 },
    IncompleteIntent,
    NothingStaged,
    CommitMismatch { commit: u64, index: u64 },
    Compacted,
    SnapshotTemporarilyUnavailable,
}

impl View for RaftStorageError {
    type V = StorageErrorView;

    open spec fn view(&self) -> StorageErrorView {
        match *self {
            RaftStorageError::InvalidAppliedIndex { raw } => {
                StorageErrorView::InvalidAppliedIndex { raw: raw@ }
            },
            RaftStorageError::AppliedIndexBackwards => StorageErrorView::AppliedIndexBackwards,
            RaftStorageError::StaleSnapshot { index, applied } => {
                StorageErrorView::StaleSnapshot { index, applied }
            },
            RaftStorageError::Snapshot(error) => StorageErrorView::Snapshot(error),
            RaftStorageError::OtherSnapshotPending { index } => {
                StorageErrorView::OtherSnapshotPending { index }
            },
            RaftStorageError::IncompleteIntent => StorageErrorView::IncompleteIntent,
            RaftStorageError::NothingStaged => StorageErrorView::NothingStaged,
            RaftStorageError::CommitMismatch { commit, index } => {
                StorageErrorView::CommitMismatch { commit, index }
            },
            RaftStorageError::Compacted => StorageErrorView::Compacted,
            RaftStorageError::SnapshotTemporarilyUnavailable => {
                StorageErrorView::SnapshotTemporarilyUnavailable
            },
        }
    }
}

/// A result, its error by what it states.
pub open spec fn result_view<T>(r: Result<T, RaftStorageError>) -> Result<T, StorageErrorView> {
    match r {
        Ok(value) => Ok(value),
        Err(error) => Err(error@),
    }
}

impl StorageErrorView {
    /// The text of the error.
    pub open spec fn text(self) -> Seq<char> {
        match self {
            StorageErrorView::InvalidAppliedIndex { raw } => {
                "Invalid Raft applied index value: "@ + text::printed_bytes(raw)
            },
            StorageErrorView::AppliedIndexBackwards => {
                "Cannot move Raft applied index backwards while persisting ConfState"@
            },
            StorageErrorView::StaleSnapshot { index, applied } => {
                "Rejecting stale Raft snapshot at index "@ + text::decimal(index as nat)
                    + " because durable applied index is "@ + text::decimal(applied as nat)
            },
            StorageErrorView::Snapshot(error) => error.text(),
            StorageErrorView::OtherSnapshotPending { index } => {
                "A different Raft snapshot install is already pending at index "@ + text::decimal(
                    index as nat,
                )
            },
            StorageErrorView::IncompleteIntent => {
                "Incomplete durable Raft snapshot install intent"@
            },
            StorageErrorView::NothingStaged => "No staged Raft snapshot install to commit"@,
            StorageErrorView::CommitMismatch { commit, index } => {
                "Pending snapshot HardState commit "@ + text::decimal(commit as nat)
                    + " does not match snapshot index "@ + text::decimal(index as nat)
            },
            StorageErrorView::Compacted => "log compacted"@,
            StorageErrorView::SnapshotTemporarilyUnavailable => {
                "snapshot is temporarily unavailable"@
            },
        }
    }
}

impl RaftStorageError {
    /// The text of the error.
    pub fn message(&self) -> (r: String)
        ensures
            r@ == self@.text(),
    {
        match self {
            RaftStorageError::InvalidAppliedIndex { raw } => {
                let mut s = "Invalid Raft applied index value: ".to_owned();
                text::push_bytes(&mut s, raw.as_slice());
                s
            },
            RaftStorageError::AppliedIndexBackwards => {
                "Cannot move Raft applied index backwards while persisting ConfState".to_owned()
            },
            RaftStorageError::StaleSnapshot { index, applied } => {
                let mut s = "Rejecting stale Raft snapshot at index ".to_owned();
                text::push_decimal(&mut s, *index);
                s.append(" because durable applied index is ");
                text::push_decimal(&mut s, *applied);
                s
            },
            RaftStorageError::Snapshot(error) => error.message(),
            RaftStorageError::OtherSnapshotPending { index } => {
                let mut s =
                    "A different Raft snapshot install is already pending at index ".to_owned();
                text::push_decimal(&mut s, *index);
                s
            },
            RaftStorageError::IncompleteIntent => {
                "Incomplete durable Raft snapshot install intent".to_owned()
            },
            RaftStorageError::NothingStaged => {
                "No staged Raft snapshot install to commit".to_owned()
            },
            RaftStorageError::CommitMismatch { commit, index } => {
                let mut s = "Pending snapshot HardState commit ".to_owned();
                text::push_decimal(&mut s, *commit);
                s.append(" does not match snapshot index ");
                text::push_decimal(&mut s, *index);
                s
            },
            RaftStorageError::Compacted => "log compacted".to_owned(),
            RaftStorageError::SnapshotTemporarilyUnavailable => {
                "snapshot is temporarily unavailable".to_owned()
            },
        }
    }
}

/// Why the payload is not that of the snapshot's place in the log.
#[verifier::opaque]
pub open spec fn payload_error(snapshot: SnapshotView) -> Option<RaftSnapshotError> {
    match raft_snapshot::snapshot_in(snapshot.data, snapshot.index, snapshot.term) {
        Ok(_) => None,
        Err(error) => Some(error),
    }
}

/// Why the payload is not that of the snapshot's place in the log.
fn check_payload(snapshot: &Snapshot) -> (r: Option<RaftSnapshotError>)
    ensures
        r == payload_error(snapshot@),
{
    proof {
        reveal(payload_error);
    }
    match raft_snapshot::decode_snapshot(
        snapshot.data.as_slice(),
        snapshot.index,
        snapshot.term,
    ) {
        Ok(_) => None,
        Err(error) => Some(error),
    }
}

/// The hard state with the commit index at `index`.
pub open spec fn committed_through(hs: HardState, index: u64) -> HardState {
    HardState { commit: index, ..hs }
}

impl RegionView {
    /// The highest index that is durably applied. A state that was written
    /// before the index had a key of its own has it in its snapshot.
    pub open spec fn applied(self) -> Result<u64, StorageErrorView> {
        match self.applied_index {
            Some(raw) => if raw.len() == 8 {
                Ok(big_endian::u64_value(raw))
            } else {
                Err(StorageErrorView::InvalidAppliedIndex { raw })
            },
            None => match self.snapshot {
                Some(snapshot) => Ok(snapshot.index),
                None => Ok(0),
            },
        }
    }

    /// The hard state, which starts at zero.
    pub open spec fn hard(self) -> HardState {
        match self.hard_state {
            Some(hs) => hs,
            None => HardState { term: 0, vote: 0, commit: 0 },
        }
    }

    /// The snapshot that is to be installed.
    pub open spec fn pending(self) -> Result<Option<PendingView>, StorageErrorView> {
        match (self.pending_snapshot, self.pending_hard_state) {
            (None, None) => Ok(None),
            (Some(snapshot), Some(hard_state)) => Ok(Some(PendingView { snapshot, hard_state })),
            _ => Err(StorageErrorView::IncompleteIntent),
        }
    }

    /// What to write to stage a snapshot. Nothing, where it is staged already.
    pub open spec fn stage(
        self,
        snapshot: SnapshotView,
        ready_hard_state: Option<HardState>,
    ) -> Result<Seq<WriteView>, StorageErrorView> {
        match self.applied() {
            Err(error) => Err(error),
            Ok(applied) => if snapshot.index <= applied {
                Err(StorageErrorView::StaleSnapshot { index: snapshot.index, applied })
            } else {
                match payload_error(snapshot) {
                    Some(error) => Err(StorageErrorView::Snapshot(error)),
                    None => match self.pending() {
                        Err(error) => Err(error),
                        Ok(Some(pending)) => if pending.snapshot == snapshot {
                            Ok(Seq::empty())
                        } else {
                            Err(
                                StorageErrorView::OtherSnapshotPending {
                                    index: pending.snapshot.index,
                                },
                            )
                        },
                        Ok(None) => Ok(
                            seq![
                                WriteView::PendingSnapshot(snapshot),
                                WriteView::PendingHardState(
                                    match ready_hard_state {
                                        Some(hs) => committed_through(hs, snapshot.index),
                                        None => committed_through(self.hard(), snapshot.index),
                                    },
                                ),
                            ],
                        ),
                    },
                }
            },
        }
    }

    /// The snapshot that can be installed.
    pub open spec fn installable(self) -> Result<PendingView, StorageErrorView> {
        match self.pending() {
            Err(error) => Err(error),
            Ok(None) => Err(StorageErrorView::NothingStaged),
            Ok(Some(pending)) => match payload_error(pending.snapshot) {
                Some(error) => Err(StorageErrorView::Snapshot(error)),
                None => if pending.hard_state.commit != pending.snapshot.index {
                    Err(
                        StorageErrorView::CommitMismatch {
                            commit: pending.hard_state.commit,
                            index: pending.snapshot.index,
                        },
                    )
                } else {
                    Ok(pending)
                },
            },
        }
    }
}

/// What to write to install a snapshot: the old state goes, and the new one
/// comes, in one batch. After a crash there is the old state with the intent,
/// or the whole new state, and never a mixture.
pub open spec fn install_batch(pending: PendingView) -> Seq<WriteView> {
    seq![
        WriteView::Clean,
        WriteView::Snapshot(pending.snapshot),
        WriteView::ConfState(pending.snapshot.conf_state),
        WriteView::HardState(pending.hard_state),
        WriteView::AppliedIndex(big_endian::u64_bytes(pending.snapshot.index)),
    ]
}

/// The durable state of one partition's Raft group, as far as it has been
/// written.
#[derive(Clone, Debug)]
pub struct ConvexRaftStorage {
    partition_id: PartitionId,
    region: RegionState,
    conf_state: ConfState,
}

/// What a [`ConvexRaftStorage`] states.
pub struct StorageView {
    pub partition_id: PartitionId,
    pub region: RegionView,
    /// The members, as this node works with them.
    pub conf_state: ConfStateView,
}

impl View for ConvexRaftStorage {
    type V = StorageView;

    closed spec fn view(&self) -> StorageView {
        StorageView {
            partition_id: self.partition_id,
            region: self.region@,
            conf_state: self.conf_state@,
        }
    }
}

/// The members that the last change of them in the batch names.
pub open spec fn members_after(conf_state: ConfStateView, batch: Seq<WriteView>) -> ConfStateView
    decreases batch.len(),
{
    if batch.len() == 0 {
        conf_state
    } else {
        let next = match batch[0] {
            WriteView::ConfState(cs) => cs,
            _ => conf_state,
        };
        members_after(next, batch.skip(1))
    }
}

impl ConvexRaftStorage {
    /// The state of a partition. Where it has been written before, it is taken
    /// up again; otherwise the peers are its members, and that is to be
    /// written.
    pub fn new(partition_id: PartitionId, region: RegionState, peers: Vec<u64>) -> (r: (
        Self,
        Vec<RegionWrite>,
    ))
        ensures
            r.0@.partition_id == partition_id,
            r.0@.region == region@,
            match region@.conf_state {
                Some(cs) => r.0@.conf_state == cs && r.1@.len() == 0,
                None => r.0@.conf_state == voters_only(peers@) && batch_view(r.1@) == seq![
                    WriteView::ConfState(voters_only(peers@)),
                ],
            },
    {
        let mut batch: Vec<RegionWrite> = Vec::new();
        let conf_state = match &region.conf_state {
            Some(cs) => cs.duplicate(),
            None => {
                let cs = ConfState::of_voters(peers);
                batch.push(RegionWrite::ConfState(cs.duplicate()));
                assert(batch_view(batch@) =~= seq![WriteView::ConfState(voters_only(peers@))]);
                cs
            },
        };
        (ConvexRaftStorage { partition_id, region, conf_state }, batch)
    }

    /// The number under which the partition's state is kept.
    pub fn region_id(&self) -> (r: u64)
        ensures
            r == self@.partition_id.0,
    {
        self.partition_id.0 as u64
    }

    /// Get the partition this storage belongs to.
    pub fn partition_id(&self) -> (r: PartitionId)
        ensures
            r == self@.partition_id,
    {
        self.partition_id
    }

    /// What is kept under each key.
    pub fn region(&self) -> (r: &RegionState)
        ensures
            r@ == self@.region,
    {
        &self.region
    }

    /// Takes in a batch that has been written.
    pub fn written(&mut self, batch: &Vec<RegionWrite>)
        ensures
            final(self)@ == (StorageView {
                partition_id: old(self)@.partition_id,
                region: after_batch(old(self)@.region, batch_view(batch@)),
                conf_state: members_after(old(self)@.conf_state, batch_view(batch@)),
            }),
    {
        let ghost all = batch_view(batch@);
        assert(all.skip(0) =~= all);
        let mut i: usize = 0;
        while i < batch.len()
            invariant
                i <= batch@.len(),
                all == batch_view(batch@),
                self.partition_id == old(self).partition_id,
                self.region == old(self).region,
                members_after(old(self).conf_state@, all) == members_after(
                    self.conf_state@,
                    all.skip(i as int),
                ),
            decreases batch@.len() - i,
        {
            proof {
                assert(all.skip(i as int)[0] == batch@[i as int]@);
                assert(all.skip(i as int).skip(1) =~= all.skip(i + 1));
            }
            match &batch[i] {
                RegionWrite::ConfState(cs) => {
                    self.conf_state = cs.duplicate();
                },
                _ => {},
            }
            i = i + 1;
        }
        assert(all.skip(i as int).len() == 0);
        self.region.apply(batch);
    }

    /// What to write to append entries to the log.
    pub fn append_entries(&self, entries: Vec<LogEntry>) -> (r: Vec<RegionWrite>)
        ensures
            batch_view(r@) == appended(entries_view(entries@)),
    {
        let mut batch: Vec<RegionWrite> = Vec::new();
        if entries.len() > 0 {
            batch.push(RegionWrite::Entries(entries));
        }
        assert(batch_view(batch@) =~= appended(entries_view(entries@)));
        batch
    }

    /// What to write to append entries to the log and keep a hard state: one
    /// batch, so that a crash leaves both or neither.
    pub fn append_entries_and_hardstate(&self, entries: Vec<LogEntry>, hs: HardState) -> (r: Vec<
        RegionWrite,
    >)
        ensures
            batch_view(r@) == appended(entries_view(entries@)).push(WriteView::HardState(hs)),
    {
        let ghost given = entries_view(entries@);
        let mut batch = self.append_entries(entries);
        let ghost before = batch@;
        batch.push(RegionWrite::HardState(hs));
        assert(batch_view(batch@) =~= batch_view(before).push(WriteView::HardState(hs)));
        batch
    }

    /// What to write to keep a hard state.
    pub fn set_hardstate(&self, hs: HardState) -> (r: Vec<RegionWrite>)
        ensures
            batch_view(r@) == seq![WriteView::HardState(hs)],
    {
        let mut batch: Vec<RegionWrite> = Vec::new();
        batch.push(RegionWrite::HardState(hs));
        assert(batch_view(batch@) =~= seq![WriteView::HardState(hs)]);
        batch
    }

    /// Highest Raft log index durably applied to the state machine.
    pub fn applied_index(&self) -> (r: Result<u64, RaftStorageError>)
        ensures
            result_view(r) == self@.region.applied(),
    {
        match &self.region.applied_index {
            Some(raw) => match big_endian::decode_u64(raw.as_slice()) {
                Some(index) => Ok(index),
                None => {
                    let copy = raw.clone();
                    assert(copy@ =~= raw@);
                    Err(RaftStorageError::InvalidAppliedIndex { raw: copy })
                },
            },
            None => match &self.region.snapshot {
                Some(snapshot) => Ok(snapshot.index),
                None => Ok(0),
            },
        }
    }

    /// What to write to keep the applied index.
    pub fn set_applied_index(&self, index: u64) -> (r: Vec<RegionWrite>)
        ensures
            batch_view(r@) == seq![WriteView::AppliedIndex(big_endian::u64_bytes(index))],
    {
        let mut batch: Vec<RegionWrite> = Vec::new();
        batch.push(RegionWrite::AppliedIndex(big_endian::encode_u64(index)));
        assert(batch_view(batch@) =~= seq![
            WriteView::AppliedIndex(big_endian::u64_bytes(index)),
        ]);
        batch
    }

    /// What to write to keep the members.
    pub fn set_conf_state(&self, cs: &ConfState) -> (r: Vec<RegionWrite>)
        ensures
            batch_view(r@) == seq![WriteView::ConfState(cs@)],
    {
        let mut batch: Vec<RegionWrite> = Vec::new();
        batch.push(RegionWrite::ConfState(cs.duplicate()));
        assert(batch_view(batch@) =~= seq![WriteView::ConfState(cs@)]);
        batch
    }

    /// What to write to keep the members together with the index at which the
    /// change of them was applied. Written apart, a node that starts again
    /// could have the new members and apply the change once more.
    pub fn set_conf_state_and_applied_index(&self, cs: &ConfState, index: u64) -> (r: Result<
        Vec<RegionWrite>,
        RaftStorageError,
    >)
        ensures
            match self@.region.applied() {
                Err(error) => r matches Err(found) && found@ == error,
                Ok(applied) => if index < applied {
                    r matches Err(found) && found@ == StorageErrorView::AppliedIndexBackwards
                } else {
                    r matches Ok(batch) && batch_view(batch@) == seq![
                        WriteView::ConfState(cs@),
                        WriteView::AppliedIndex(big_endian::u64_bytes(index)),
                    ]
                },
            },
    {
        match self.applied_index() {
            Err(error) => Err(error),
            Ok(applied) => {
                if index < applied {
                    return Err(RaftStorageError::AppliedIndexBackwards);
                }
                let mut batch: Vec<RegionWrite> = Vec::new();
                batch.push(RegionWrite::ConfState(cs.duplicate()));
                batch.push(RegionWrite::AppliedIndex(big_endian::encode_u64(index)));
                assert(batch_view(batch@) =~= seq![
                    WriteView::ConfState(cs@),
                    WriteView::AppliedIndex(big_endian::u64_bytes(index)),
                ]);
                Ok(batch)
            },
        }
    }

    /// The members, as this node works with them.
    pub fn conf_state(&self) -> (r: ConfState)
        ensures
            r@ == self@.conf_state,
    {
        self.conf_state.duplicate()
    }

    /// Get the current hard state.
    pub fn hard_state(&self) -> (r: HardState)
        ensures
            r == self@.region.hard(),
    {
        match self.region.hard_state {
            Some(hs) => hs,
            None => HardState { term: 0, vote: 0, commit: 0 },
        }
    }

    /// What Raft starts from.
    pub fn initial_state(&self) -> (r: (HardState, ConfState))
        ensures
            r.0 == self@.region.hard(),
            r.1@ == self@.conf_state,
    {
        (self.hard_state(), self.conf_state())
    }

    /// The snapshot that is to be installed.
    pub fn pending_snapshot_install(&self) -> (r: Result<
        Option<PendingSnapshotInstall>,
        RaftStorageError,
    >)
        ensures
            match r {
                Ok(Some(pending)) => self@.region.pending() == Ok::<
                    Option<PendingView>,
                    StorageErrorView,
                >(Some(pending@)),
                Ok(None) => self@.region.pending() == Ok::<Option<PendingView>, StorageErrorView>(
                    None,
                ),
                Err(error) => self@.region.pending() == Err::<
                    Option<PendingView>,
                    StorageErrorView,
                >(error@),
            },
    {
        match (&self.region.pending_snapshot, self.region.pending_hard_state) {
            (None, None) => Ok(None),
            (Some(snapshot), Some(hard_state)) => Ok(
                Some(PendingSnapshotInstall { snapshot: snapshot.duplicate(), hard_state }),
            ),
            _ => Err(RaftStorageError::IncompleteIntent),
        }
    }

    /// What to write to stage a snapshot that has come in, before anything is
    /// changed. It has to lie ahead of what is applied, its payload has to be
    /// that of its place in the log, and no other may be staged.
    pub fn stage_snapshot(
        &self,
        snapshot: &Snapshot,
        ready_hard_state: Option<HardState>,
    ) -> (r: Result<Vec<RegionWrite>, RaftStorageError>)
        ensures
            match r {
                Ok(batch) => self@.region.stage(snapshot@, ready_hard_state) == Ok::<
                    Seq<WriteView>,
                    StorageErrorView,
                >(batch_view(batch@)),
                Err(error) => self@.region.stage(snapshot@, ready_hard_state) == Err::<
                    Seq<WriteView>,
                    StorageErrorView,
                >(error@),
            },
    {
        let applied: u64 = match self.applied_index() {
            Ok(applied) => applied,
            Err(error) => {
                return Err(error);
            },
        };
        if snapshot.index <= applied {
            return Err(RaftStorageError::StaleSnapshot { index: snapshot.index, applied });
        }
        match check_payload(snapshot) {
            Some(error) => {
                return Err(RaftStorageError::Snapshot(error));
            },
            None => {},
        }
        let mut batch: Vec<RegionWrite> = Vec::new();
        match self.pending_snapshot_install() {
            Err(error) => {
                return Err(error);
            },
            Ok(Some(pending)) => {
                if !pending.snapshot.same(snapshot) {
                    return Err(
                        RaftStorageError::OtherSnapshotPending { index: pending.snapshot.index },
                    );
                }
                assert(batch_view(batch@) =~= Seq::<WriteView>::empty());
            },
            Ok(None) => {
                let base = match ready_hard_state {
                    Some(hs) => hs,
                    None => self.hard_state(),
                };
                let hard_state = HardState {
                    term: base.term,
                    vote: base.vote,
                    commit: snapshot.index,
                };
                assert(hard_state == committed_through(base, snapshot.index));
                batch.push(RegionWrite::PendingSnapshot(snapshot.duplicate()));
                batch.push(RegionWrite::PendingHardState(hard_state));
                assert(batch_view(batch@) =~= seq![
                    WriteView::PendingSnapshot(snapshot@),
                    WriteView::PendingHardState(hard_state),
                ]);
            },
        }
        assert(batch_view(batch@) =~= self@.region.stage(snapshot@, ready_hard_state)->Ok_0);
        Ok(batch)
    }

    /// What to write to install the staged snapshot, and the index that is
    /// applied then.
    pub fn commit_pending_snapshot_install(&self) -> (r: Result<
        (Vec<RegionWrite>, u64),
        RaftStorageError,
    >)
        ensures
            match self@.region.installable() {
                Ok(pending) => r matches Ok((batch, index)) && batch_view(batch@) == install_batch(
                    pending,
                ) && index == pending.snapshot.index,
                Err(error) => r matches Err(found) && found@ == error,
            },
    {
        let pending = match self.pending_snapshot_install() {
            Err(error) => {
                return Err(error);
            },
            Ok(None) => {
                return Err(RaftStorageError::NothingStaged);
            },
            Ok(Some(pending)) => pending,
        };
        let ghost stated = pending@;
        let index: u64 = pending.snapshot.index;
        match check_payload(&pending.snapshot) {
            Some(error) => {
                return Err(RaftStorageError::Snapshot(error));
            },
            None => {},
        }
        if pending.hard_state.commit != index {
            return Err(
                RaftStorageError::CommitMismatch { commit: pending.hard_state.commit, index },
            );
        }
        let mut batch: Vec<RegionWrite> = Vec::new();
        let members = pending.snapshot.conf_state.duplicate();
        batch.push(RegionWrite::Clean);
        batch.push(RegionWrite::Snapshot(pending.snapshot));
        batch.push(RegionWrite::ConfState(members));
        batch.push(RegionWrite::HardState(pending.hard_state));
        batch.push(RegionWrite::AppliedIndex(big_endian::encode_u64(index)));
        assert(batch_view(batch@) =~= install_batch(stated));
        Ok((batch, index))
    }

    /// The first index that the log can give, where the engine's first entry
    /// is known.
    pub fn first_index(&self, engine_first: Option<u64>) -> (r: u64)
        ensures
            r == first_available(engine_first, self@.region.snapshot),
    {
        let snapshot_first: Option<u64> = match &self.region.snapshot {
            Some(snapshot) => Some(snapshot.index.saturating_add(1)),
            None => None,
        };
        match (engine_first, snapshot_first) {
            (Some(engine_first), Some(snapshot_first)) => if engine_first < snapshot_first {
                snapshot_first
            } else {
                engine_first
            },
            (Some(engine_first), None) => engine_first,
            (None, Some(snapshot_first)) => snapshot_first,
            (None, None) => 1,
        }
    }

    /// The last index that the log knows of.
    pub fn last_index(&self, engine_last: Option<u64>) -> (r: u64)
        ensures
            r == last_known(engine_last, self@.region.snapshot),
    {
        let engine_last: u64 = match engine_last {
            Some(last) => last,
            None => 0,
        };
        let snapshot_last: u64 = match &self.region.snapshot {
            Some(snapshot) => snapshot.index,
            None => 0,
        };
        if engine_last < snapshot_last {
            snapshot_last
        } else {
            engine_last
        }
    }

    /// Whether the entries from `low` on can be read.
    pub fn check_entries(&self, low: u64, engine_first: Option<u64>) -> (r: Result<
        (),
        RaftStorageError,
    >)
        ensures
            result_view(r) == (if low < first_available(engine_first, self@.region.snapshot) {
                Err(StorageErrorView::Compacted)
            } else {
                Ok(())
            }),
    {
        if low < self.first_index(engine_first) {
            return Err(RaftStorageError::Compacted);
        }
        Ok(())
    }

    /// The term of an entry, where the engine tells the term of the entry if
    /// it has it.
    pub fn term(&self, index: u64, entry_term: Option<u64>) -> (r: Result<u64, RaftStorageError>)
        ensures
            result_view(r) == term_at(index, entry_term, self@.region.snapshot),
    {
        match &self.region.snapshot {
            Some(snapshot) => {
                if index == snapshot.index {
                    return Ok(snapshot.term);
                }
                if index < snapshot.index {
                    return Err(RaftStorageError::Compacted);
                }
            },
            None => {},
        }
        match entry_term {
            Some(term) => Ok(term),
            None => if index == 0 {
                Ok(0)
            } else {
                Err(RaftStorageError::Compacted)
            },
        }
    }

    /// The place in the log for which a snapshot can be made: the applied
    /// index. There is none before anything is applied, nor on a node that
    /// makes no snapshots.
    pub fn snapshot_place(&self, makes_snapshots: bool) -> (r: Result<u64, RaftStorageError>)
        ensures
            result_view(r) == (if !makes_snapshots {
                Err(StorageErrorView::SnapshotTemporarilyUnavailable)
            } else {
                match self@.region.applied() {
                    Err(error) => Err(error),
                    Ok(index) => if index == 0 {
                        Err(StorageErrorView::SnapshotTemporarilyUnavailable)
                    } else {
                        Ok(index)
                    },
                }
            }),
    {
        if !makes_snapshots {
            return Err(RaftStorageError::SnapshotTemporarilyUnavailable);
        }
        match self.applied_index() {
            Err(error) => Err(error),
            Ok(index) => if index == 0 {
                Err(RaftStorageError::SnapshotTemporarilyUnavailable)
            } else {
                Ok(index)
            },
        }
    }

    /// The snapshot of a place in the log, with the payload that was made for
    /// it and the members of now.
    pub fn snapshot(&self, index: u64, term: u64, data: Vec<u8>) -> (r: Snapshot)
        ensures
            r@ == (SnapshotView {
                index,
                term,
                conf_state: self@.conf_state,
                data: data@,
            }),
    {
        Snapshot { index, term, conf_state: self.conf_state.duplicate(), data }
    }
}

/// The first index that the log can give: that of the engine's first entry,
/// and no earlier than the one behind the snapshot.
pub open spec fn first_available(
    engine_first: Option<u64>,
    snapshot: Option<SnapshotView>,
) -> u64 {
    let behind = match snapshot {
        Some(snapshot) => if snapshot.index < u64::MAX {
            (snapshot.index + 1) as u64
        } else {
            u64::MAX
        },
        None => 0,
    };
    match engine_first {
        Some(first) => if first < behind {
            behind
        } else {
            first
        },
        None => if snapshot is Some {
            behind
        } else {
            1
        },
    }
}

/// The last index that the log knows of.
pub open spec fn last_known(engine_last: Option<u64>, snapshot: Option<SnapshotView>) -> u64 {
    let last = match engine_last {
        Some(last) => last,
        None => 0,
    };
    match snapshot {
        Some(snapshot) => if last < snapshot.index {
            snapshot.index
        } else {
            last
        },
        None => last,
    }
}

/// The term of an entry. Of what lies before the snapshot nothing is known.
pub open spec fn term_at(
    index: u64,
    entry_term: Option<u64>,
    snapshot: Option<SnapshotView>,
) -> Result<u64, StorageErrorView> {
    if snapshot matches Some(s) && index == s.index {
        Ok(snapshot->Some_0.term)
    } else if snapshot matches Some(s) && index < s.index {
        Err(StorageErrorView::Compacted)
    } else {
        match entry_term {
            Some(term) => Ok(term),
            None => if index == 0 {
                Ok(0)
            } else {
                Err(StorageErrorView::Compacted)
            },
        }
    }
}

/// What is written as the applied index is read as it.
pub proof fn applied_index_reads_back(region: RegionView, index: u64)
    ensures
        after_batch(
            region,
            seq![WriteView::AppliedIndex(big_endian::u64_bytes(index))],
        ).applied() == Ok::<u64, StorageErrorView>(index),
{
    big_endian::u64_bytes_read_back(index);
    let batch = seq![WriteView::AppliedIndex(big_endian::u64_bytes(index))];
    assert(batch.skip(1) =~= Seq::empty());
    reveal_with_fuel(after_batch, 3);
}

/// Staging a snapshot changes nothing but the intent: what is applied, the hard
/// state, the members and the installed snapshot stay as they are. The intent
/// is then there, and staging the same snapshot once more writes nothing.
pub proof fn staging_only_adds_the_intent(
    region: RegionView,
    snapshot: SnapshotView,
    ready_hard_state: Option<HardState>,
)
    ensures
        region.stage(snapshot, ready_hard_state) matches Ok(batch) ==> {
            let after = after_batch(region, batch);
            &&& after.hard_state == region.hard_state
            &&& after.conf_state == region.conf_state
            &&& after.applied_index == region.applied_index
            &&& after.snapshot == region.snapshot
            &&& after.pending() matches Ok(Some(pending)) && pending.snapshot == snapshot
            &&& after.stage(snapshot, ready_hard_state) == Ok::<Seq<WriteView>, StorageErrorView>(
                Seq::empty(),
            )
        },
{
    match region.stage(snapshot, ready_hard_state) {
        Ok(batch) => {
            if batch.len() > 0 {
                assert(batch.skip(1).skip(1) =~= Seq::empty());
                reveal_with_fuel(after_batch, 4);
            }
        },
        Err(_) => {},
    }
}

/// While a snapshot is staged, no other can be.
pub proof fn one_snapshot_is_staged_at_a_time(
    region: RegionView,
    staged: PendingView,
    other: SnapshotView,
    ready_hard_state: Option<HardState>,
)
    requires
        region.pending() == Ok::<Option<PendingView>, StorageErrorView>(Some(staged)),
        other != staged.snapshot,
    ensures
        region.stage(other, ready_hard_state) is Err,
{
}

/// A snapshot that was freshly staged can be installed, and it lies ahead of
/// what was applied. Once installed, it is applied, committed and in force,
/// with its members, whoever they were before, and nothing is staged any more.
pub proof fn staged_snapshot_is_installed_whole(
    region: RegionView,
    snapshot: SnapshotView,
    ready_hard_state: Option<HardState>,
    members: ConfStateView,
)
    requires
        region.pending() == Ok::<Option<PendingView>, StorageErrorView>(None),
    ensures
        region.stage(snapshot, ready_hard_state) matches Ok(batch) ==> {
            let staged = after_batch(region, batch);
            &&& region.applied() matches Ok(applied) && applied < snapshot.index
            &&& staged.installable() matches Ok(pending) && {
                let after = after_batch(staged, install_batch(pending));
                &&& pending.snapshot == snapshot
                &&& after.applied() == Ok::<u64, StorageErrorView>(snapshot.index)
                &&& after.hard().commit == snapshot.index
                &&& after.conf_state == Some(snapshot.conf_state)
                &&& after.snapshot == Some(snapshot)
                &&& after.pending() == Ok::<Option<PendingView>, StorageErrorView>(None)
                &&& members_after(members, install_batch(pending)) == snapshot.conf_state
            }
        },
{
    match region.stage(snapshot, ready_hard_state) {
        Ok(batch) => {
            assert(batch.skip(1).skip(1) =~= Seq::empty());
            reveal_with_fuel(after_batch, 7);
            reveal_with_fuel(members_after, 7);
            let staged = after_batch(region, batch);
            match staged.installable() {
                Ok(pending) => {
                    let install = install_batch(pending);
                    assert(install.skip(1).skip(1).skip(1).skip(1).skip(1) =~= Seq::empty());
                    big_endian::u64_bytes_read_back(snapshot.index);
                },
                Err(_) => {},
            }
        },
        Err(_) => {},
    }
}

/// Behind an installed snapshot the log starts anew: its first index is the
/// one behind the snapshot, its last is the snapshot's own, and the term there
/// is the snapshot's.
pub proof fn log_starts_behind_the_snapshot(snapshot: SnapshotView)
    requires
        snapshot.index < u64::MAX,
    ensures
        first_available(None, Some(snapshot)) == snapshot.index + 1,
        last_known(None, Some(snapshot)) == snapshot.index,
        term_at(snapshot.index, None, Some(snapshot)) == Ok::<u64, StorageErrorView>(
            snapshot.term,
        ),
{
}

/// The members and the index at which they came into force are kept together:
/// a node that starts again finds both.
pub proof fn members_come_with_their_index(region: RegionView, cs: ConfStateView, index: u64)
    ensures
        ({
            let after = after_batch(
                region,
                seq![
                    WriteView::ConfState(cs),
                    WriteView::AppliedIndex(big_endian::u64_bytes(index)),
                ],
            );
            &&& after.conf_state == Some(cs)
            &&& after.applied() == Ok::<u64, StorageErrorView>(index)
            &&& after.hard_state == region.hard_state
            &&& after.snapshot == region.snapshot
        }),
{
    big_endian::u64_bytes_read_back(index);
    let batch = seq![
        WriteView::ConfState(cs),
        WriteView::AppliedIndex(big_endian::u64_bytes(index)),
    ];
    assert(batch.skip(1).skip(1) =~= Seq::empty());
    reveal_with_fuel(after_batch, 4);
}

/// Appending to the log changes nothing that is kept under a key but the hard
/// state that is written with it. In particular, what is committed is not yet
/// applied: a node that starts again goes on behind what it has applied.
pub proof fn appending_keeps_the_keys(
    region: RegionView,
    entries: Seq<LogEntryView>,
    hs: HardState,
)
    ensures
        after_batch(region, appended(entries)) == region,
        after_batch(region, appended(entries).push(WriteView::HardState(hs))) == (RegionView {
            hard_state: Some(hs),
            ..region
        }),
        after_batch(region, appended(entries).push(WriteView::HardState(hs))).applied()
            == region.applied(),
{
    reveal_with_fuel(after_batch, 3);
    let both = appended(entries).push(WriteView::HardState(hs));
    if entries.len() > 0 {
        assert(appended(entries).skip(1) =~= Seq::empty());
        assert(both.skip(1) =~= seq![WriteView::HardState(hs)]);
        assert(both.skip(1).skip(1) =~= Seq::empty());
    } else {
        assert(both =~= seq![WriteView::HardState(hs)]);
        assert(both.skip(1) =~= Seq::empty());
    }
}

/// Each change is to what it names, and to nothing else; removing everything leaves
/// the state of a group that has never been written.
pub proof fn changes_are_to_what_they_name(region: RegionView, write: WriteView)
    ensures
        ({
            let after = changed(region, write);
            &&& write is Clean ==> after.hard_state is None && after.conf_state is None
                && after.applied_index is None && after.snapshot is None && after.pending_snapshot
                is None && after.pending_hard_state is None
            &&& !(write is Clean) ==> {
                &&& after.hard_state == (match write {
                    WriteView::HardState(hs) => Some(hs),
                    _ => region.hard_state,
                })
                &&& after.conf_state == (match write {
                    WriteView::ConfState(cs) => Some(cs),
                    _ => region.conf_state,
                })
                &&& after.applied_index == (match write {
                    WriteView::AppliedIndex(raw) => Some(raw),
                    _ => region.applied_index,
                })
                &&& after.snapshot == (match write {
                    WriteView::Snapshot(snapshot) => Some(snapshot),
                    _ => region.snapshot,
                })
                &&& after.pending_snapshot == (match write {
                    WriteView::PendingSnapshot(snapshot) => Some(snapshot),
                    _ => region.pending_snapshot,
                })
                &&& after.pending_hard_state == (match write {
                    WriteView::PendingHardState(hs) => Some(hs),
                    _ => region.pending_hard_state,
                })
            }
        }),
{
}

/// A batch is its changes one after the other.
pub proof fn batches_are_taken_in_order(
    region: RegionView,
    batch: Seq<WriteView>,
    last: WriteView,
)
    ensures
        after_batch(region, Seq::empty()) == region,
        after_batch(region, batch.push(last)) == changed(after_batch(region, batch), last),
    decreases batch.len(),
{
    if batch.len() == 0 {
        assert(batch.push(last).skip(1) =~= Seq::<WriteView>::empty());
        assert(batch =~= Seq::<WriteView>::empty());
        assert(after_batch(changed(region, last), Seq::empty()) == changed(region, last));
    } else {
        assert(batch.push(last).skip(1) =~= batch.skip(1).push(last));
        batches_are_taken_in_order(changed(region, batch[0]), batch.skip(1), last);
    }
}

/// The members that a node works with are those of the last change of them.
pub proof fn the_last_members_count(
    members: ConfStateView,
    batch: Seq<WriteView>,
    last: WriteView,
)
    ensures
        members_after(members, Seq::empty()) == members,
        last matches WriteView::ConfState(cs) ==> members_after(members, batch.push(last)) == cs,
        !(last is ConfState) ==> members_after(members, batch.push(last)) == members_after(
            members,
            batch,
        ),
    decreases batch.len(),
{
    if batch.len() == 0 {
        assert(batch =~= Seq::<WriteView>::empty());
        assert(batch.push(last).skip(1) =~= Seq::<WriteView>::empty());
        let next = match last {
            WriteView::ConfState(cs) => cs,
            _ => members,
        };
        assert(members_after(next, Seq::empty()) == next);
    } else {
        assert(batch.push(last).skip(1) =~= batch.skip(1).push(last));
        let next = match batch[0] {
            WriteView::ConfState(cs) => cs,
            _ => members,
        };
        the_last_members_count(next, batch.skip(1), last);
    }
}

/// What is applied is what its key says, in eight bytes; without the key it is the
/// index of the snapshot, and without that nothing.
pub proof fn the_applied_index_is_where_it_is_kept(region: RegionView)
    ensures
        region.applied() is Err <==> (region.applied_index matches Some(raw) && raw.len() != 8),
        region.applied_index matches Some(raw) ==> (raw.len() == 8 ==> region.applied() == Ok::<
            u64,
            StorageErrorView,
        >(big_endian::u64_value(raw))),
        region.applied_index is None && region.snapshot is Some ==> region.applied() == Ok::<
            u64,
            StorageErrorView,
        >(region.snapshot->Some_0.index),
        region.applied_index is None && region.snapshot is None ==> region.applied() == Ok::<
            u64,
            StorageErrorView,
        >(0),
        region.hard_state matches Some(hs) ==> region.hard() == hs,
        region.hard_state is None ==> region.hard() == (HardState { term: 0, vote: 0, commit: 0 }),
{
}

/// An intent to install a snapshot is whole or there is none: one half of it alone
/// is an error.
pub proof fn intents_are_whole(region: RegionView)
    ensures
        region.pending() is Err <==> (region.pending_snapshot is Some
            <==> region.pending_hard_state is None),
        region.pending() matches Ok(Some(pending)) ==> Some(pending.snapshot)
            == region.pending_snapshot && Some(pending.hard_state) == region.pending_hard_state,
        region.pending() == Ok::<Option<PendingView>, StorageErrorView>(None)
            <==> region.pending_snapshot is None && region.pending_hard_state is None,
{
}

/// A snapshot is staged exactly where it lies ahead of what is applied, its payload
/// is that of its place in the log, and none but itself is staged.
pub proof fn snapshots_are_staged_on_these_terms(
    region: RegionView,
    snapshot: SnapshotView,
    ready_hard_state: Option<HardState>,
)
    ensures
        region.stage(snapshot, ready_hard_state) is Ok <==> {
            &&& region.applied() matches Ok(applied)
            &&& applied < snapshot.index
            &&& raft_snapshot::snapshot_in(snapshot.data, snapshot.index, snapshot.term) is Ok
            &&& region.pending() matches Ok(pending)
            &&& pending matches Some(staged) ==> staged.snapshot == snapshot
        },
{
    reveal(payload_error);
}

/// A snapshot is staged with the hard state that came with it, or else the one that
/// is kept, committed up to the snapshot.
pub proof fn snapshots_are_staged_with_their_hard_state(
    region: RegionView,
    snapshot: SnapshotView,
    ready_hard_state: Option<HardState>,
)
    requires
        region.stage(snapshot, ready_hard_state) is Ok,
        region.pending() == Ok::<Option<PendingView>, StorageErrorView>(None),
    ensures
        ({
            let batch = region.stage(snapshot, ready_hard_state)->Ok_0;
            let staged = after_batch(region, batch).pending_hard_state;
            let source = match ready_hard_state {
                Some(hs) => hs,
                None => match region.hard_state {
                    Some(hs) => hs,
                    None => HardState { term: 0, vote: 0, commit: 0 },
                },
            };
            &&& staged matches Some(hs)
            &&& hs.term == source.term
            &&& hs.vote == source.vote
            &&& hs.commit == snapshot.index
        }),
{
    let batch = region.stage(snapshot, ready_hard_state)->Ok_0;
    let first = seq![batch[0]];
    assert(batch =~= first.push(batch[1]));
    batches_are_taken_in_order(region, first, batch[1]);
    assert(first =~= Seq::<WriteView>::empty().push(batch[0]));
    batches_are_taken_in_order(region, Seq::empty(), batch[0]);
}

/// A staged snapshot is installed exactly where its payload is that of its place in
/// the log and its hard state is committed just up to it.
pub proof fn snapshots_are_installed_on_these_terms(region: RegionView)
    ensures
        region.installable() is Ok <==> {
            &&& region.pending_snapshot matches Some(snapshot)
            &&& region.pending_hard_state matches Some(hs)
            &&& raft_snapshot::snapshot_in(snapshot.data, snapshot.index, snapshot.term) is Ok
            &&& hs.commit == snapshot.index
        },
        region.installable() matches Ok(pending) ==> Some(pending.snapshot)
            == region.pending_snapshot && Some(pending.hard_state) == region.pending_hard_state,
{
    reveal(payload_error);
}

/// An installed snapshot brings its hard state as it was staged, and nothing of the
/// old state is left.
pub proof fn installing_replaces_everything(region: RegionView, pending: PendingView)
    ensures
        after_batch(region, install_batch(pending)) == (RegionView {
            hard_state: Some(pending.hard_state),
            conf_state: Some(pending.snapshot.conf_state),
            applied_index: Some(big_endian::u64_bytes(pending.snapshot.index)),
            snapshot: Some(pending.snapshot),
            pending_snapshot: None,
            pending_hard_state: None,
        }),
{
    let batch = install_batch(pending);
    reveal_with_fuel(after_batch, 6);
    assert(batch.skip(1)[0] == batch[1]);
    assert(batch.skip(1).skip(1)[0] == batch[2]);
    assert(batch.skip(1).skip(1).skip(1)[0] == batch[3]);
    assert(batch.skip(1).skip(1).skip(1).skip(1)[0] == batch[4]);
}

/// The log gives what the engine has, but nothing up to its snapshot; an empty log
/// begins behind the snapshot, or with 1. It ends with the later of the two.
pub proof fn the_log_begins_behind_its_snapshot(
    engine_first: u64,
    engine_last: u64,
    snapshot: SnapshotView,
)
    requires
        snapshot.index < u64::MAX,
    ensures
        first_available(Some(engine_first), Some(snapshot)) >= engine_first,
        first_available(Some(engine_first), Some(snapshot)) > snapshot.index,
        first_available(Some(engine_first), Some(snapshot)) == engine_first || first_available(
            Some(engine_first),
            Some(snapshot),
        ) == snapshot.index + 1,
        first_available(Some(engine_first), None) == engine_first,
        first_available(None, None) == 1,
        last_known(Some(engine_last), Some(snapshot)) >= engine_last,
        last_known(Some(engine_last), Some(snapshot)) >= snapshot.index,
        last_known(Some(engine_last), Some(snapshot)) == engine_last || last_known(
            Some(engine_last),
            Some(snapshot),
        ) == snapshot.index,
        last_known(Some(engine_last), None) == engine_last,
        last_known(None, None) == 0,
{
}

/// The term of an entry is the snapshot's at the snapshot, not known before it, and
/// the engine's behind it. Before the first entry it is 0.
pub proof fn terms_are_known_from_the_snapshot_on(
    index: u64,
    entry_term: Option<u64>,
    snapshot: Option<SnapshotView>,
)
    ensures
        ({
            let term = term_at(index, entry_term, snapshot);
            let compacted = Err::<u64, StorageErrorView>(StorageErrorView::Compacted);
            &&& snapshot matches Some(s) ==> (index < s.index ==> term == compacted)
            &&& snapshot matches Some(s) ==> (index == s.index ==> term == Ok::<
                u64,
                StorageErrorView,
            >(s.term))
            &&& (snapshot is None || snapshot->Some_0.index < index) ==> match entry_term {
                Some(t) => term == Ok::<u64, StorageErrorView>(t),
                None => term == (if index == 0 {
                    Ok::<u64, StorageErrorView>(0)
                } else {
                    compacted
                }),
            }
        }),
{
}

/// A group of voters has them and no other member, and is in no change.
pub proof fn groups_of_voters_have_no_others(voters: Seq<u64>)
    ensures
        voters_only(voters).voters == voters,
        voters_only(voters).learners.len() == 0,
        voters_only(voters).voters_outgoing.len() == 0,
        voters_only(voters).learners_next.len() == 0,
        !voters_only(voters).auto_leave,
{
}

/// What is appended is all entries, in their order, in one change, and nothing where
/// there is none.
pub proof fn entries_are_appended_together(entries: Seq<LogEntryView>)
    ensures
        entries.len() > 0 ==> appended(entries) == seq![WriteView::Entries(entries)],
        entries.len() == 0 ==> appended(entries).len() == 0,
{
}

/// Two snapshots are the same exactly where their place, their members and their
/// payload are.
pub proof fn same_snapshots_agree_in_every_part(a: Snapshot, b: Snapshot)
    ensures
        a@ == b@ <==> {
            &&& a.index == b.index
            &&& a.term == b.term
            &&& a.data@ == b.data@
            &&& a.conf_state.voters@ == b.conf_state.voters@
            &&& a.conf_state.learners@ == b.conf_state.learners@
            &&& a.conf_state.voters_outgoing@ == b.conf_state.voters_outgoing@
            &&& a.conf_state.learners_next@ == b.conf_state.learners_next@
            &&& a.conf_state.auto_leave == b.conf_state.auto_leave
        },
{
}

/// A refusal tells where the snapshot stands before what stands against it.
pub proof fn snapshot_refusals_tell_both_sides(a: u64, b: u64)
    ensures
        (StorageErrorView::StaleSnapshot { index: a, applied: b }).text()
            == "Rejecting stale Raft snapshot at index "@ + text::decimal(a as nat)
            + " because durable applied index is "@ + text::decimal(b as nat),
        (StorageErrorView::CommitMismatch { commit: a, index: b }).text()
            == "Pending snapshot HardState commit "@ + text::decimal(a as nat)
            + " does not match snapshot index "@ + text::decimal(b as nat),
        (StorageErrorView::OtherSnapshotPending { index: a }).text()
            == "A different Raft snapshot install is already pending at index "@ + text::decimal(
            a as nat,
        ),
{
}

/// What cannot be installed or staged is refused for its cause: an intent that
/// is not whole, nothing that is staged, a payload that is not that of its
/// place, another commit, a snapshot that is behind, or another one that is
/// staged.
pub proof fn snapshots_are_refused_for_cause(
    region: RegionView,
    snapshot: SnapshotView,
    ready_hard_state: Option<HardState>,
)
    ensures
        region.pending() matches Err(error) ==> error is IncompleteIntent,
        region.installable() matches Err(error) ==> {
            let staged = region.pending_snapshot;
            let held = region.pending_hard_state;
            &&& staged is None && held is None ==> error is NothingStaged
            &&& (staged is None) != (held is None) ==> error is IncompleteIntent
            &&& staged matches Some(s) ==> held matches Some(hs) ==> match raft_snapshot::snapshot_in(
                s.data,
                s.index,
                s.term,
            ) {
                Err(cause) => error == StorageErrorView::Snapshot(cause),
                Ok(_) => error == (StorageErrorView::CommitMismatch {
                    commit: hs.commit,
                    index: s.index,
                }),
            }
        },
        region.stage(snapshot, ready_hard_state) matches Err(error) ==> region.applied() matches Ok(
            applied,
        ) ==> {
            let held = raft_snapshot::snapshot_in(snapshot.data, snapshot.index, snapshot.term);
            &&& snapshot.index <= applied ==> error == (StorageErrorView::StaleSnapshot {
                index: snapshot.index,
                applied,
            })
            &&& snapshot.index > applied && held is Err ==> error == StorageErrorView::Snapshot(
                held->Err_0,
            )
            &&& snapshot.index > applied && held is Ok ==> (region.pending() is Err ==> error
                is IncompleteIntent) && (region.pending() is Ok ==> error is OtherSnapshotPending)
        },
{
    reveal(payload_error);
}

} // verus!
