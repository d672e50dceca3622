use convex_cluster::checkpoint::CheckpointData;
use convex_cluster::commit_delta::Timestamp;
use convex_cluster::json::JsonValue;
use convex_cluster::ordered::{indexes_of, SortedMap};
use convex_cluster::partition::PartitionId;
use convex_cluster::raft_configuration::{
    check_configuration_entry,
    judge_configuration,
    ConfigurationError,
};
use convex_cluster::raft_node::{
    self,
    replication_health,
    serving_lease_read_index_context,
    EntryClass,
    EntryKind,
    LeadershipChange,
    RaftNodeConfig,
    RaftProposalResult,
    RaftStatus,
    Resolutions,
    SnapshotError,
    SnapshotProposalIdentity,
    VoterProgress,
};
use convex_cluster::raft_run::{
    light_steps,
    ready_steps,
    CommittedEntry,
    LightStep,
    LoopAction,
    LoopEvent,
    NextEntry,
    ReadyStep,
    RunLoop,
};
use convex_cluster::raft_snapshot::{encode_snapshot, RAFT_STATE_MACHINE_INDEX_KEY};
use convex_cluster::raft_storage::{
    self as rules,
    LogEntry,
    RegionState,
    RegionWrite,
    APPLIED_INDEX_KEY,
    CONF_STATE_KEY,
    HARD_STATE_KEY,
    PENDING_SNAPSHOT_HARD_STATE_KEY,
    PENDING_SNAPSHOT_KEY,
    SNAPSHOT_KEY,
};
use protobuf::Message as _;
use raft::prelude::{
    ConfChange,
    ConfChangeSingle,
    ConfChangeTransition,
    ConfChangeType,
    ConfChangeV2,
    ConfState,
    Config,
    Entry,
    EntryType,
    HardState,
    Message,
    MessageType,
    RawNode,
    Snapshot,
    SnapshotMetadata,
};
use raft::{
    GetEntriesContext,
    RaftState,
    ReadOnlyOption,
    ReadState,
    StateRole,
    Storage,
    StorageError,
};
use raft_engine::{Command, Engine, LogBatch, MessageExt};
use std::collections::{BTreeMap, VecDeque};
use std::sync::{Arc, Mutex};

// The Raft log and its keys in raft-engine.

#[derive(Clone)]
struct Entries;

impl MessageExt for Entries {
    type Entry = Entry;

    fn index(entry: &Entry) -> u64 {
        entry.index
    }
}

fn kind_of(entry: &Entry) -> EntryKind {
    match entry.get_entry_type() {
        EntryType::EntryNormal => EntryKind::Normal,
        EntryType::EntryConfChange => EntryKind::ConfChange,
        EntryType::EntryConfChangeV2 => EntryKind::ConfChangeV2,
    }
}

fn to_entry(entry: &LogEntry) -> Entry {
    let mut out = Entry::default();
    out.index = entry.index;
    out.term = entry.term;
    out.set_entry_type(match entry.kind {
        EntryKind::Normal => EntryType::EntryNormal,
        EntryKind::ConfChange => EntryType::EntryConfChange,
        EntryKind::ConfChangeV2 => EntryType::EntryConfChangeV2,
    });
    out.set_data(entry.data.clone().into());
    out.set_context(entry.context.clone().into());
    out
}

fn from_entries(entries: &[Entry]) -> Vec<LogEntry> {
    entries
        .iter()
        .map(|entry| LogEntry {
            index: entry.index,
            term: entry.term,
            kind: kind_of(entry),
            data: entry.get_data().to_vec(),
            context: entry.get_context().to_vec(),
        })
        .collect()
}

fn from_hard_state(hs: &HardState) -> rules::HardState {
    rules::HardState { term: hs.term, vote: hs.vote, commit: hs.commit }
}

fn to_hard_state(hs: rules::HardState) -> HardState {
    let mut out = HardState::default();
    out.term = hs.term;
    out.vote = hs.vote;
    out.commit = hs.commit;
    out
}

fn from_conf_state(cs: &ConfState) -> rules::ConfState {
    rules::ConfState {
        voters: cs.get_voters().to_vec(),
        learners: cs.get_learners().to_vec(),
        voters_outgoing: cs.get_voters_outgoing().to_vec(),
        learners_next: cs.get_learners_next().to_vec(),
        auto_leave: cs.get_auto_leave(),
    }
}

fn to_conf_state(cs: &rules::ConfState) -> ConfState {
    let mut out = ConfState::default();
    out.set_voters(cs.voters.clone());
    out.set_learners(cs.learners.clone());
    out.set_voters_outgoing(cs.voters_outgoing.clone());
    out.set_learners_next(cs.learners_next.clone());
    out.set_auto_leave(cs.auto_leave);
    out
}

fn from_snapshot(snapshot: &Snapshot) -> rules::Snapshot {
    let metadata = snapshot.get_metadata();
    rules::Snapshot {
        index: metadata.index,
        term: metadata.term,
        conf_state: from_conf_state(metadata.get_conf_state()),
        data: snapshot.get_data().to_vec(),
    }
}

fn to_snapshot(snapshot: &rules::Snapshot) -> Snapshot {
    let mut metadata = SnapshotMetadata::default();
    metadata.index = snapshot.index;
    metadata.term = snapshot.term;
    metadata.set_conf_state(to_conf_state(&snapshot.conf_state));
    let mut out = Snapshot::default();
    out.set_metadata(metadata);
    out.set_data(snapshot.data.clone().into());
    out
}

fn test_engine() -> Arc<Engine> {
    let dir = tempfile::tempdir().unwrap();
    let path = dir.path().to_str().unwrap().to_string();
    // The directory lives as long as the process.
    std::mem::forget(dir);
    let config = raft_engine::Config { dir: path, ..Default::default() };
    Arc::new(Engine::open(config).unwrap())
}

struct Shared {
    rules: rules::ConvexRaftStorage,
    fail_next_write: bool,
}

/// Clones share the storage.
#[derive(Clone)]
struct TestStorage {
    engine: Arc<Engine>,
    shared: Arc<Mutex<Shared>>,
    region: u64,
}

fn kept(engine: &Engine, region: u64) -> RegionState {
    let hs = |key: &str| {
        let found: Option<HardState> = engine.get_message(region, key.as_bytes()).unwrap();
        found.map(|found| from_hard_state(&found))
    };
    let snapshot = |key: &str| {
        let found: Option<Snapshot> = engine.get_message(region, key.as_bytes()).unwrap();
        found.map(|found| from_snapshot(&found))
    };
    let cs: Option<ConfState> = engine.get_message(region, CONF_STATE_KEY.as_bytes()).unwrap();
    RegionState {
        hard_state: hs(HARD_STATE_KEY),
        conf_state: cs.map(|cs| from_conf_state(&cs)),
        applied_index: engine.get(region, APPLIED_INDEX_KEY.as_bytes()),
        snapshot: snapshot(SNAPSHOT_KEY),
        pending_snapshot: snapshot(PENDING_SNAPSHOT_KEY),
        pending_hard_state: hs(PENDING_SNAPSHOT_HARD_STATE_KEY),
    }
}

impl TestStorage {
    fn new(engine: Arc<Engine>, peers: Vec<u64>) -> Self {
        let state = kept(&engine, 0);
        let (storage, batch) = rules::ConvexRaftStorage::new(PartitionId(0), state, peers);
        let region = storage.region_id();
        let shared = Shared { rules: storage, fail_next_write: false };
        let storage = TestStorage { engine, shared: Arc::new(Mutex::new(shared)), region };
        storage.write(batch).unwrap();
        storage
    }

    fn read<R>(&self, read: impl FnOnce(&rules::ConvexRaftStorage) -> R) -> R {
        read(&self.shared.lock().unwrap().rules)
    }

    fn fail_next_write(&self) {
        self.shared.lock().unwrap().fail_next_write = true;
    }

    fn write(&self, writes: Vec<RegionWrite>) -> Result<(), String> {
        let mut shared = self.shared.lock().unwrap();
        if writes.is_empty() {
            return Ok(());
        }
        if shared.fail_next_write {
            shared.fail_next_write = false;
            return Err("injected raft-engine write failure".to_string());
        }
        let key = |name: &str| name.as_bytes().to_vec();
        let mut batch = LogBatch::default();
        for write in &writes {
            match write {
                RegionWrite::Clean => batch.add_command(self.region, Command::Clean),
                RegionWrite::Entries(entries) => {
                    let entries: Vec<Entry> = entries.iter().map(to_entry).collect();
                    batch.add_entries::<Entries>(self.region, &entries).unwrap();
                }
                RegionWrite::HardState(hs) => {
                    let hs = to_hard_state(*hs);
                    batch.put_message(self.region, key(HARD_STATE_KEY), &hs).unwrap();
                }
                RegionWrite::ConfState(cs) => {
                    let cs = to_conf_state(cs);
                    batch.put_message(self.region, key(CONF_STATE_KEY), &cs).unwrap();
                }
                RegionWrite::AppliedIndex(bytes) => {
                    batch.put(self.region, key(APPLIED_INDEX_KEY), bytes.clone()).unwrap();
                }
                RegionWrite::Snapshot(snapshot) => {
                    let snapshot = to_snapshot(snapshot);
                    batch.put_message(self.region, key(SNAPSHOT_KEY), &snapshot).unwrap();
                }
                RegionWrite::PendingSnapshot(snapshot) => {
                    let snapshot = to_snapshot(snapshot);
                    batch.put_message(self.region, key(PENDING_SNAPSHOT_KEY), &snapshot).unwrap();
                }
                RegionWrite::PendingHardState(hs) => {
                    let hs = to_hard_state(*hs);
                    batch
                        .put_message(self.region, key(PENDING_SNAPSHOT_HARD_STATE_KEY), &hs)
                        .unwrap();
                }
            }
        }
        self.engine.write(&mut batch, true).unwrap();
        shared.rules.written(&writes);
        Ok(())
    }

    fn append(&self, entries: &[Entry], hs: Option<&HardState>) -> Result<(), String> {
        let entries = from_entries(entries);
        let batch = match hs {
            Some(hs) => {
                self.read(|rules| rules.append_entries_and_hardstate(entries, from_hard_state(hs)))
            }
            None => self.read(|rules| rules.append_entries(entries)),
        };
        self.write(batch)
    }

    fn set_commit(&self, commit: u64) -> Result<(), String> {
        let batch = self.read(|rules| {
            let mut hs = rules.hard_state();
            hs.commit = commit;
            rules.set_hardstate(hs)
        });
        self.write(batch)
    }

    fn applied_index(&self) -> u64 {
        self.read(|rules| rules.applied_index()).unwrap()
    }

    fn apply_snapshot(&self, snapshot: &Snapshot) {
        let incoming = from_snapshot(snapshot);
        self.write(self.read(|rules| rules.stage_snapshot(&incoming, None)).unwrap()).unwrap();
        let (batch, _) = self.read(|rules| rules.commit_pending_snapshot_install()).unwrap();
        self.write(batch).unwrap();
    }

    fn voters(&self) -> Vec<u64> {
        self.initial_state().unwrap().conf_state.get_voters().to_vec()
    }
}

fn store_error(error: impl std::fmt::Display) -> raft::Error {
    raft::Error::Store(StorageError::Other(Box::new(std::io::Error::other(error.to_string()))))
}

fn rule_error(error: rules::RaftStorageError) -> raft::Error {
    match error {
        rules::RaftStorageError::Compacted => raft::Error::Store(StorageError::Compacted),
        error => store_error(error.message()),
    }
}

impl Storage for TestStorage {
    fn initial_state(&self) -> raft::Result<RaftState> {
        let (hs, cs) = self.read(|rules| rules.initial_state());
        Ok(RaftState { hard_state: to_hard_state(hs), conf_state: to_conf_state(&cs) })
    }

    fn entries(
        &self,
        low: u64,
        high: u64,
        max_size: impl Into<Option<u64>>,
        _context: GetEntriesContext,
    ) -> raft::Result<Vec<Entry>> {
        let first = self.engine.first_index(self.region);
        self.read(|rules| rules.check_entries(low, first)).map_err(rule_error)?;
        let max = max_size.into().map(|size| size as usize);
        let mut entries = Vec::new();
        self.engine
            .fetch_entries_to::<Entries>(self.region, low, high, max, &mut entries)
            .map_err(store_error)?;
        Ok(entries)
    }

    fn term(&self, idx: u64) -> raft::Result<u64> {
        let entry = self.engine.get_entry::<Entries>(self.region, idx).map_err(store_error)?;
        self.read(|rules| rules.term(idx, entry.map(|entry| entry.term))).map_err(rule_error)
    }

    fn first_index(&self) -> raft::Result<u64> {
        Ok(self.read(|rules| rules.first_index(self.engine.first_index(self.region))))
    }

    fn last_index(&self) -> raft::Result<u64> {
        Ok(self.read(|rules| rules.last_index(self.engine.last_index(self.region))))
    }

    fn snapshot(&self, _request_index: u64, _to: u64) -> raft::Result<Snapshot> {
        Err(raft::Error::Store(StorageError::SnapshotTemporarilyUnavailable))
    }
}

// A node that runs the library with raft-rs.

enum Mail {
    Raft(Message),
    Propose(Vec<u8>),
    MarkApplied(u64),
    Shutdown,
}

struct TestNode {
    raw: RawNode<TestStorage>,
    storage: TestStorage,
    rules: raft_node::RaftNode,
    /// What each proposal was answered, by its index; a rejection of a
    /// proposal that got no index stands under zero.
    answers: BTreeMap<u64, RaftProposalResult>,
    events: Vec<&'static str>,
    leases: Vec<u64>,
    leader_id: u64,
    sent: Vec<Message>,
    now: u64,
}

fn place_of(snapshot: &Snapshot) -> (u64, u64) {
    (snapshot.get_metadata().index, snapshot.get_metadata().term)
}

fn committed(entries: Vec<Entry>) -> Vec<CommittedEntry> {
    entries
        .into_iter()
        .map(|entry| CommittedEntry {
            index: entry.index,
            kind: kind_of(&entry),
            data: entry.get_data().to_vec(),
        })
        .collect()
}

impl TestNode {
    fn new(config: RaftNodeConfig, engine: Arc<Engine>) -> Self {
        let storage = TestStorage::new(engine, config.peers.clone());
        let applied = storage.applied_index();
        let settings = config.raft_settings(applied);
        assert!(settings.safe_reads);
        let raft_config = Config {
            id: settings.id,
            election_tick: settings.election_tick,
            heartbeat_tick: settings.heartbeat_tick,
            max_size_per_msg: settings.max_size_per_msg,
            max_inflight_msgs: settings.max_inflight_msgs,
            applied: settings.applied,
            check_quorum: settings.check_quorum,
            pre_vote: settings.pre_vote,
            read_only_option: ReadOnlyOption::Safe,
            ..Default::default()
        };
        let raw = RawNode::with_default_logger(&raft_config, storage.clone()).unwrap();
        TestNode {
            raw,
            storage,
            rules: raft_node::RaftNode::new(config, applied),
            answers: BTreeMap::new(),
            events: Vec::new(),
            leases: Vec::new(),
            leader_id: 0,
            sent: Vec::new(),
            now: 0,
        }
    }

    fn status(&self) -> RaftStatus {
        RaftStatus {
            term: self.raw.raft.term,
            leads: self.raw.raft.state == StateRole::Leader,
            committed: self.raw.raft.raft_log.committed,
            last_index: self.raw.raft.raft_log.last_index(),
        }
    }

    /// Lets the application take the node for a ready leader, whatever the
    /// protocol says.
    fn force_leader(&mut self) {
        let raft = RaftStatus { term: 0, leads: true, committed: 0, last_index: 0 };
        self.rules.soft_state_changed(true, raft);
        assert!(self.rules.maybe_mark_leader_ready(raft, 0).0);
    }

    fn answer(&mut self, resolutions: &Resolutions) {
        for index in indexes_of(&resolutions.committed) {
            self.answers.insert(index, RaftProposalResult::Committed { index });
        }
        for index in indexes_of(&resolutions.rejected) {
            self.answers.insert(index, RaftProposalResult::Rejected);
        }
    }

    fn lost(&mut self, lost: Option<Resolutions>) {
        if let Some(resolutions) = lost {
            self.answer(&resolutions);
            self.events.push("lost");
        }
    }

    fn lease(&mut self, lease: Option<u64>) {
        if let Some(valid_until) = lease {
            self.leases.push(valid_until);
            self.events.push("lease");
        }
    }

    fn start_lease_round(&mut self, sent_at: u64) -> Option<Vec<u8>> {
        let context = self.rules.maybe_start_leader_serving_lease_round(self.status(), sent_at);
        if let Some(context) = &context {
            self.raw.read_index(context.clone());
        }
        context
    }

    fn mark_leader_ready(&mut self) {
        let (ready, context) = self.rules.maybe_mark_leader_ready(self.status(), self.now);
        if ready {
            self.events.push("ready");
        }
        if let Some(context) = context {
            self.raw.read_index(context);
        }
    }

    fn handle_read_states(&mut self, read_states: Vec<ReadState>, handled_at: u64) {
        let contexts: Vec<Vec<u8>> =
            read_states.into_iter().map(|state| state.request_ctx).collect();
        let lease = self.rules.process_leader_serving_lease_read_states(
            self.status(),
            &contexts,
            handled_at,
        );
        self.lease(lease);
    }

    fn take_read_states(&mut self) -> Vec<ReadState> {
        std::mem::take(&mut self.raw.raft.read_states)
    }

    fn persist_applied(&mut self, persist: Option<u64>) -> Result<(), String> {
        if let Some(index) = persist {
            let batch = self.storage.read(|rules| rules.set_applied_index(index));
            self.storage.write(batch)?;
            self.rules.applied_index_persisted(index);
        }
        Ok(())
    }

    fn record_applied(&mut self, index: u64) -> Result<(), String> {
        let persist = self.rules.record_applied_index(index);
        self.persist_applied(persist)
    }

    fn step(&mut self, msg: Message) {
        let identity = if msg.get_msg_type() == MessageType::MsgSnapshot && msg.has_snapshot() {
            let (index, term) = place_of(msg.get_snapshot());
            let pending = self.raw.snap().map(place_of);
            let committed = self.status().committed;
            Some(self.rules.snapshot_proposal_identity_before_step(index, term, pending, committed))
        } else {
            None
        };
        if self.raw.step(msg).is_ok() {
            if let Some(identity) = identity {
                let pending = self.raw.snap().map(place_of);
                self.rules.snapshot_message_stepped(identity, pending);
            }
        }
    }

    /// Proposes the data and returns the index that it waits at.
    fn propose(&mut self, data: Vec<u8>) -> Option<u64> {
        let index = self.rules.proposal_index(self.status())?;
        self.raw.propose(vec![], data).ok()?;
        self.rules.proposal_accepted(index);
        Some(index)
    }

    fn apply_configuration(&mut self, entry: &CommittedEntry) -> Result<(), String> {
        check_configuration_entry(&self.rules, entry.index, entry.kind, &entry.data)
            .map_err(|error| error.message())?;
        let conf_state = if entry.kind == EntryKind::ConfChange {
            let change = ConfChange::parse_from_bytes(&entry.data).unwrap();
            self.raw.apply_conf_change(&change).unwrap()
        } else {
            let change = ConfChangeV2::parse_from_bytes(&entry.data).unwrap();
            self.raw.apply_conf_change(&change).unwrap()
        };
        let members = from_conf_state(&conf_state);
        let batch = self
            .storage
            .read(|rules| rules.set_conf_state_and_applied_index(&members, entry.index))
            .unwrap();
        self.storage.write(batch)?;
        let committed = self.status().committed;
        let finished =
            self.rules.configuration_applied(entry.index, &members.voters, committed, self.now);
        self.lease(finished.lease);
        self.lost(finished.lost_leadership);
        Ok(())
    }

    /// Applies entries one after another, as a state machine does that needs
    /// no time, and returns what went through it.
    fn apply_committed(
        &mut self,
        entries: Vec<CommittedEntry>,
        on_committed: &mut impl FnMut(&mut TestNode, &[u8]) -> Result<(), String>,
    ) -> Result<Vec<Vec<u8>>, String> {
        let mut applied = Vec::new();
        for entry in entries {
            let index = entry.index;
            let class =
                self.rules.classify_committed_entry(index, entry.kind, entry.data.is_empty());
            match class {
                EntryClass::Configuration => self.apply_configuration(&entry)?,
                EntryClass::Empty => self.record_applied(index)?,
                EntryClass::Local => {
                    self.answers.insert(index, RaftProposalResult::Committed { index });
                    self.record_applied(index)?;
                }
                EntryClass::Remote => {
                    on_committed(self, &entry.data)?;
                    self.record_applied(index)?;
                    applied.push(entry.data);
                }
            }
        }
        Ok(applied)
    }

    fn follow_soft_state(&mut self, leader_id: u64, leads: bool) {
        self.leader_id = leader_id;
        match self.rules.soft_state_changed(leads, self.status()) {
            LeadershipChange::Unchanged => {}
            LeadershipChange::Became { .. } => self.events.push("elected"),
            LeadershipChange::Lost(resolutions) => self.lost(Some(resolutions)),
        }
    }

    fn finish_snapshot(
        &mut self,
        snapshot: &Snapshot,
        proof: &SnapshotProposalIdentity,
    ) -> Result<(), SnapshotError> {
        let (index, term) = place_of(snapshot);
        let metadata = raft_node::SnapshotMetadata {
            index,
            term,
            voters: snapshot.get_metadata().get_conf_state().get_voters().to_vec(),
        };
        let stored = self.storage.applied_index();
        let committed = self.status().committed;
        let finished = self.rules.finish_snapshot_application(
            &metadata,
            proof,
            stored,
            committed,
            self.now,
        )?;
        self.answer(&finished.answered);
        self.lease(finished.lease);
        self.lost(finished.lost_leadership);
        Ok(())
    }

    /// Carries out the steps of ready work; what was committed goes to `defer`.
    fn process_ready(
        &mut self,
        defer: &mut impl FnMut(&mut TestNode, Vec<CommittedEntry>) -> Result<(), String>,
    ) -> Result<(), String> {
        let mut ready = self.raw.ready();
        let incoming = ready.snapshot().clone();
        let (index, term) = place_of(&incoming);
        let soft_state = ready.ss().map(|ss| (ss.leader_id, ss.raft_state == StateRole::Leader));
        let read_states = ready.take_read_states();
        let mut proof = None;
        for step in ready_steps(soft_state.is_some(), !incoming.is_empty(), ready.hs().is_some()) {
            match step {
                ReadyStep::CaptureSnapshotProof => {
                    proof = Some(self.rules.snapshot_proposal_identity_for_install(index, term));
                }
                ReadyStep::FollowSoftState => {
                    let (leader_id, leads) = soft_state.unwrap();
                    self.follow_soft_state(leader_id, leads);
                }
                ReadyStep::SendMessages => self.sent.extend(ready.take_messages()),
                ReadyStep::StageSnapshot => {
                    let snapshot = from_snapshot(&incoming);
                    let hs = ready.hs().map(from_hard_state);
                    let batch = self.storage.read(|rules| rules.stage_snapshot(&snapshot, hs));
                    self.storage.write(batch.unwrap())?;
                }
                ReadyStep::InstallSnapshot => self.events.push("snapshot"),
                ReadyStep::CommitSnapshot => {
                    let install =
                        self.storage.read(|rules| rules.commit_pending_snapshot_install());
                    self.storage.write(install.unwrap().0)?;
                }
                ReadyStep::FinishSnapshot => {
                    let proof = proof.take().unwrap();
                    self.finish_snapshot(&incoming, &proof).unwrap();
                }
                ReadyStep::HandleReadStates => {
                    self.handle_read_states(read_states.clone(), self.now);
                }
                ReadyStep::PersistEntriesAndHardState | ReadyStep::PersistEntries => {
                    self.storage.append(ready.entries(), ready.hs())?;
                }
                ReadyStep::SendPersistedMessages => {
                    self.sent.extend(ready.take_persisted_messages());
                }
                ReadyStep::DeferCommitted => {
                    let entries = committed(ready.take_committed_entries());
                    defer(self, entries)?;
                }
                ReadyStep::AdvanceAppend => {}
            }
        }
        let mut light = self.raw.advance_append(ready);
        for step in light_steps(light.commit_index()) {
            match step {
                LightStep::PersistCommit { commit } => self.storage.set_commit(commit)?,
                LightStep::SendMessages => self.sent.extend(light.take_messages()),
                LightStep::DeferCommitted => {
                    let entries = committed(light.take_committed_entries());
                    defer(self, entries)?;
                }
                LightStep::MarkLeaderReady => {
                    self.raw.advance_apply_to(self.rules.durable_applied_index());
                    self.mark_leader_ready();
                }
            }
        }
        Ok(())
    }

    /// Processes one batch of ready work, applies what it commits at once, and
    /// returns what went through the state machine.
    fn try_process_ready_with_apply(
        &mut self,
        mut on_committed: impl FnMut(&mut TestNode, &[u8]) -> Result<(), String>,
    ) -> Result<Vec<Vec<u8>>, String> {
        let mut applied = Vec::new();
        if self.raw.has_ready() {
            self.process_ready(&mut |node: &mut TestNode, entries| {
                applied.extend(node.apply_committed(entries, &mut on_committed)?);
                Ok(())
            })?;
        }
        Ok(applied)
    }

    fn try_process_ready(&mut self) -> Result<Vec<Vec<u8>>, String> {
        self.try_process_ready_with_apply(|_, _| Ok(()))
    }

    fn process_one_ready(&mut self) -> Vec<Vec<u8>> {
        self.try_process_ready().unwrap()
    }

    fn tick_twenty_times(&mut self) {
        for _ in 0..20 {
            self.raw.tick();
        }
    }

    fn elect(&mut self) {
        self.tick_twenty_times();
        while self.raw.has_ready() {
            self.process_one_ready();
        }
        assert!(self.rules.is_leader_ready());
    }
}

// The loop around a node, with a mailbox and an apply worker.

struct Running {
    node: TestNode,
    run: RunLoop,
    action: LoopAction,
    mailbox: VecDeque<Mail>,
    jobs: VecDeque<u64>,
    applied: VecDeque<u64>,
}

const MILLISECOND: u64 = 1_000_000;

impl Running {
    fn new(node: TestNode) -> Self {
        let mut run = RunLoop::new(node.now);
        let action = run.step(LoopEvent::Resumed);
        Running {
            node,
            run,
            action,
            mailbox: VecDeque::new(),
            jobs: VecDeque::new(),
            applied: VecDeque::new(),
        }
    }

    fn handle(&mut self, mail: Mail) -> LoopEvent {
        match mail {
            Mail::Raft(msg) => self.node.step(msg),
            Mail::Propose(data) => {
                if self.node.propose(data).is_none() {
                    self.node.answers.insert(0, RaftProposalResult::Rejected);
                }
            }
            Mail::MarkApplied(index) => {
                self.node.record_applied(index).unwrap();
                self.run.local_apply_recorded(index);
                self.node.raw.advance_apply_to(self.node.rules.durable_applied_index());
                self.node.mark_leader_ready();
            }
            Mail::Shutdown => return LoopEvent::ShutdownRequested,
        }
        LoopEvent::MessageHandled
    }

    fn finish_apply(&mut self, index: u64) -> LoopEvent {
        let persist =
            self.run.finish_state_machine_apply(&mut self.node.rules, index, true).unwrap();
        self.node.persist_applied(persist).unwrap();
        self.node.raw.advance_apply_to(self.node.rules.durable_applied_index());
        self.node.mark_leader_ready();
        LoopEvent::ApplyHandled
    }

    fn tick(&mut self) -> LoopEvent {
        self.node.raw.tick();
        let now = self.node.now;
        self.node.start_lease_round(now);
        LoopEvent::Ticked { now }
    }

    fn schedule(&mut self) -> bool {
        let mut made_progress = false;
        loop {
            match self.run.schedule_next_committed_entry(&mut self.node.rules) {
                NextEntry::Nothing => break,
                NextEntry::Configuration(entry) => self.node.apply_configuration(&entry).unwrap(),
                NextEntry::Empty { persist } => self.node.persist_applied(persist).unwrap(),
                NextEntry::Local(entry) => {
                    let index = entry.index;
                    self.node.answers.insert(index, RaftProposalResult::Committed { index });
                    assert!(!self.run.local_client_told(index, true));
                }
                NextEntry::Remote(entry) => self.jobs.push_back(entry.index),
            }
            made_progress = true;
        }
        if made_progress {
            self.node.raw.advance_apply_to(self.node.rules.durable_applied_index());
            self.node.mark_leader_ready();
        }
        made_progress
    }

    fn process_ready(&mut self) {
        let run = &mut self.run;
        self.node
            .process_ready(&mut |_: &mut TestNode, entries| {
                run.defer(entries);
                Ok(())
            })
            .unwrap();
    }

    /// Runs until the loop waits or ends; `true` where it ended.
    fn run_until_it_waits(&mut self) -> bool {
        loop {
            let event = match self.action {
                LoopAction::TryMailbox => match self.mailbox.pop_front() {
                    Some(mail) => self.handle(mail),
                    None => LoopEvent::MailboxEmpty,
                },
                LoopAction::TryApplies => match self.applied.pop_front() {
                    Some(index) => self.finish_apply(index),
                    None => LoopEvent::AppliesEmpty,
                },
                LoopAction::ReadClock => LoopEvent::Now { now: self.node.now },
                LoopAction::Tick => self.tick(),
                LoopAction::PollReady => LoopEvent::ReadyPolled {
                    has_ready: self.node.raw.has_ready(),
                    snapshot_in_raft: self.node.raw.snap().is_some_and(|snap| !snap.is_empty()),
                },
                LoopAction::ProcessReady => {
                    self.process_ready();
                    LoopEvent::ReadyProcessed
                }
                LoopAction::Schedule => LoopEvent::Scheduled { made_progress: self.schedule() },
                LoopAction::Yield => LoopEvent::Resumed,
                LoopAction::Wait { until } => {
                    if let Some(mail) = self.mailbox.pop_front() {
                        self.handle(mail)
                    } else if let Some(index) = self.applied.pop_front() {
                        self.finish_apply(index)
                    } else if self.node.now >= until {
                        self.tick()
                    } else {
                        return false;
                    }
                }
                LoopAction::Stop => return true,
                LoopAction::FailWorkerGone { .. } => panic!("the apply worker stopped"),
            };
            self.action = self.run.step(event);
        }
    }
}

/// Lets the nodes exchange messages until all of them wait.
fn settle(nodes: &mut [Running]) {
    loop {
        for node in nodes.iter_mut() {
            assert!(!node.run_until_it_waits());
        }
        let sent: Vec<Message> =
            nodes.iter_mut().flat_map(|node| std::mem::take(&mut node.node.sent)).collect();
        if sent.is_empty() {
            return;
        }
        for msg in sent {
            let to = msg.to;
            if let Some(peer) = nodes.iter_mut().find(|node| node.node.rules.node_id() == to) {
                peer.mailbox.push_back(Mail::Raft(msg));
            }
        }
    }
}

/// Lets the time pass in steps of ten milliseconds.
fn pass(nodes: &mut [Running], millis: u64) {
    for _ in 0..millis / 10 {
        for node in nodes.iter_mut() {
            node.node.now += 10 * MILLISECOND;
        }
        settle(nodes);
    }
}

// What the tests hand in.

fn test_config_with_peers(peers: Vec<u64>) -> RaftNodeConfig {
    RaftNodeConfig {
        node_id: 1,
        partition_id: PartitionId(0),
        peers,
        election_tick: 10,
        heartbeat_tick: 3,
    }
}

fn test_config() -> RaftNodeConfig {
    test_config_with_peers(vec![1])
}

fn configuration_entry(index: u64, entry_type: EntryType, data: Vec<u8>) -> Entry {
    let mut entry = Entry::default();
    entry.set_index(index);
    entry.set_term(1);
    entry.set_entry_type(entry_type);
    entry.set_data(data.into());
    entry
}

fn normal_entry(index: u64, term: u64, data: &[u8]) -> Entry {
    let mut entry = Entry::default();
    entry.set_index(index);
    entry.set_term(term);
    entry.set_data(data.to_vec().into());
    entry
}

fn hard_state_at(term: u64, vote: u64, commit: u64) -> HardState {
    let mut hs = HardState::default();
    hs.set_term(term);
    hs.set_vote(vote);
    hs.set_commit(commit);
    hs
}

fn persist_committed_entries_with_peers(
    engine: Arc<Engine>,
    peers: Vec<u64>,
    entries: Vec<Entry>,
) {
    let storage = TestStorage::new(engine, peers);
    let last = entries.last().expect("test must persist at least one entry");
    let hs = hard_state_at(last.term, 0, last.index);
    storage.append(&entries, Some(&hs)).unwrap();
}

fn add_voter_v1(node_id: u64) -> Vec<u8> {
    let mut change = ConfChange::default();
    change.set_node_id(node_id);
    change.set_change_type(ConfChangeType::AddNode);
    change.write_to_bytes().unwrap()
}

fn v2_change(node_id: u64, change_type: ConfChangeType) -> ConfChangeSingle {
    let mut single = ConfChangeSingle::default();
    single.set_node_id(node_id);
    single.set_change_type(change_type);
    single
}

fn enter_joint_v2() -> Vec<u8> {
    let mut change = ConfChangeV2::default();
    change.set_transition(ConfChangeTransition::Explicit);
    change.mut_changes().push(v2_change(3, ConfChangeType::RemoveNode));
    change.mut_changes().push(v2_change(4, ConfChangeType::AddNode));
    change.write_to_bytes().unwrap()
}

fn sorted_members(members: &[u64]) -> Vec<u64> {
    let mut members = members.to_vec();
    members.sort_unstable();
    members
}

/// Applies a committed configuration entry.
fn classify_configuration(node: &mut TestNode, entry: Entry) -> Result<(), String> {
    let applied = node.apply_committed(committed(vec![entry]), &mut |_, _| Ok(()))?;
    assert!(applied.is_empty());
    Ok(())
}

fn apply_v1_voter_change(node: &mut TestNode, node_id: u64) {
    let index = node.rules.durable_applied_index() + 1;
    let entry = configuration_entry(index, EntryType::EntryConfChange, add_voter_v1(node_id));
    classify_configuration(node, entry).unwrap();
}

fn heartbeat_response(node: &TestNode, from: u64, context: Vec<u8>) -> Message {
    let mut response = Message::default();
    response.set_msg_type(MessageType::MsgHeartbeatResponse);
    response.from = from;
    response.to = node.rules.node_id();
    response.term = node.raw.raft.term;
    response.set_context(context.into());
    response
}

fn test_snapshot_bytes(index: u64, term: u64) -> Vec<u8> {
    let mut globals = SortedMap::new();
    globals.insert(RAFT_STATE_MACHINE_INDEX_KEY.to_string(), JsonValue::from_u64(index));
    let checkpoint = CheckpointData {
        timestamp: Timestamp::from_nanos(index).unwrap(),
        documents: Vec::new(),
        globals,
    };
    encode_snapshot(index, term, index, &checkpoint).unwrap()
}

fn test_snapshot(index: u64, term: u64, voters: Vec<u64>, learners: Vec<u64>) -> Snapshot {
    let mut metadata = SnapshotMetadata::default();
    metadata.index = index;
    metadata.term = term;
    metadata.set_conf_state(ConfState::from((voters, learners)));
    let mut snapshot = Snapshot::default();
    snapshot.set_metadata(metadata);
    snapshot.set_data(test_snapshot_bytes(index, term).into());
    snapshot
}

fn self_demoting_snapshot(index: u64, term: u64) -> Snapshot {
    test_snapshot(index, term, vec![2, 3, 4], vec![1])
}

/// Lets the snapshot enter Raft, and returns the proof kept for it.
fn accept_incoming_snapshot(
    node: &mut TestNode,
    snapshot: &Snapshot,
) -> SnapshotProposalIdentity {
    let mut message = Message::default();
    message.set_msg_type(MessageType::MsgSnapshot);
    message.from = 2;
    message.to = node.rules.node_id();
    message.term = snapshot.get_metadata().term + 1;
    message.set_snapshot(snapshot.clone());
    node.step(message);
    assert!(
        node.raw.snap().is_some_and(|pending| pending == snapshot),
        "raft-rs must accept the test snapshot"
    );
    let (index, term) = place_of(snapshot);
    node.rules.snapshot_proposal_identity_for_install(index, term)
}

#[test]
fn test_applies_v1_configuration_payload_and_restores_it_after_restart() {
    let engine = test_engine();
    persist_committed_entries_with_peers(
        engine.clone(),
        vec![1],
        vec![
            normal_entry(1, 1, b"normal before membership"),
            configuration_entry(2, EntryType::EntryConfChange, add_voter_v1(2)),
        ],
    );

    let mut node = TestNode::new(test_config(), engine.clone());
    assert_eq!(node.try_process_ready().unwrap(), vec![b"normal before membership".to_vec()]);
    assert_eq!(node.storage.voters(), [1, 2]);
    assert_eq!(node.storage.applied_index(), 2);
    assert_eq!(
        node.raw.store().voters(),
        [1, 2],
        "RawNode-owned storage clone must observe committed membership"
    );
    drop(node);

    let mut restarted = TestNode::new(test_config(), engine);
    assert_eq!(restarted.storage.voters(), [1, 2]);
    assert_eq!(restarted.raw.raft.raft_log.applied, 2);
    assert!(restarted.try_process_ready().unwrap().is_empty());
}

#[test]
fn test_applies_v2_joint_configuration_and_empty_leave_payload() {
    let mut node = TestNode::new(test_config_with_peers(vec![1, 2, 3]), test_engine());
    let enter_joint = configuration_entry(1, EntryType::EntryConfChangeV2, enter_joint_v2());
    classify_configuration(&mut node, enter_joint).unwrap();
    let joint = node.storage.initial_state().unwrap().conf_state;
    assert_eq!(sorted_members(joint.get_voters()), vec![1, 2, 4]);
    assert_eq!(sorted_members(joint.get_voters_outgoing()), vec![1, 2, 3]);
    assert_eq!(node.storage.applied_index(), 1);

    // An empty v2 payload leaves joint consensus, so it is decoded and applied
    // rather than treated as a normal empty entry or a malformed one.
    let leave_joint = configuration_entry(2, EntryType::EntryConfChangeV2, Vec::new());
    classify_configuration(&mut node, leave_joint).unwrap();
    let final_state = node.storage.initial_state().unwrap().conf_state;
    assert_eq!(sorted_members(final_state.get_voters()), vec![1, 2, 4]);
    assert!(final_state.get_voters_outgoing().is_empty());
    assert_eq!(node.storage.applied_index(), 2);
}

#[test]
fn test_committed_joint_demotion_immediately_revokes_application_leadership() {
    let mut node = TestNode::new(test_config_with_peers(vec![1, 2, 3]), test_engine());
    node.force_leader();

    let mut demote = ConfChangeV2::default();
    demote.set_transition(ConfChangeTransition::Explicit);
    demote.mut_changes().push(v2_change(1, ConfChangeType::AddLearnerNode));
    let entry = configuration_entry(
        1,
        EntryType::EntryConfChangeV2,
        demote.write_to_bytes().unwrap(),
    );
    classify_configuration(&mut node, entry).unwrap();

    let joint = node.storage.read(|rules| rules.conf_state());
    assert!(!joint.voters.contains(&1));
    assert!(joint.voters_outgoing.contains(&1));
    assert!(!node.rules.is_leader());
    assert!(!node.rules.is_leader_ready());
    assert_eq!(node.events.iter().filter(|event| **event == "lost").count(), 1);
}

#[test]
fn test_self_removal_preserves_later_committed_local_waiter_in_same_ready() {
    let engine = test_engine();
    let mut remove_self = ConfChange::default();
    remove_self.set_node_id(1);
    remove_self.set_change_type(ConfChangeType::RemoveNode);
    persist_committed_entries_with_peers(
        engine.clone(),
        vec![1, 2],
        vec![
            configuration_entry(
                1,
                EntryType::EntryConfChange,
                remove_self.write_to_bytes().unwrap(),
            ),
            normal_entry(2, 1, b"already committed locally"),
        ],
    );

    let mut node = TestNode::new(test_config_with_peers(vec![1, 2]), engine);
    node.force_leader();
    node.rules.proposal_accepted(2);
    let committed = node
        .try_process_ready_with_apply(|_, _| panic!("no entry goes through the state machine"))
        .unwrap();

    assert!(committed.is_empty());
    assert_eq!(node.answers.get(&2), Some(&RaftProposalResult::Committed { index: 2 }));
    assert_eq!(node.events.iter().filter(|event| **event == "lost").count(), 1);
    assert_eq!(node.storage.applied_index(), 2);
    assert_eq!(node.storage.voters(), [2]);
    assert!(node.rules.waiting_proposals().is_empty());
    assert!(node.try_process_ready().unwrap().is_empty());
}

#[test]
fn test_snapshot_resolves_only_waiter_known_committed_before_snapshot() {
    let mut node = TestNode::new(test_config(), test_engine());
    node.force_leader();

    let snapshot = self_demoting_snapshot(5, 2);
    node.rules.proposal_accepted(4);
    node.raw.raft.raft_log.committed = 4;
    let proof = accept_incoming_snapshot(&mut node, &snapshot);
    assert_eq!(indexes_of(&proof.locally_committed_proposal_indexes), [4]);

    // Ready can report follower SoftState before installing its snapshot.
    // Revocation must retain the locally committed waiter until durable
    // snapshot completion classifies it by the captured identity proof.
    let committed = node.status().committed;
    let lost = node.rules.revoke_application_leadership(committed);
    node.lost(lost);
    assert_eq!(node.rules.waiting_proposals(), [4]);
    node.storage.apply_snapshot(&snapshot);
    node.finish_snapshot(&snapshot, &proof).unwrap();

    assert_eq!(node.answers.get(&4), Some(&RaftProposalResult::Committed { index: 4 }));
    assert!(node.rules.waiting_proposals().is_empty());
}

#[test]
fn test_snapshot_rejects_same_index_waiter_not_known_committed_before_snapshot() {
    let mut node = TestNode::new(test_config(), test_engine());
    node.force_leader();

    let snapshot = self_demoting_snapshot(5, 2);
    node.rules.proposal_accepted(5);
    node.raw.raft.raft_log.committed = 4;
    let proof = accept_incoming_snapshot(&mut node, &snapshot);
    assert!(indexes_of(&proof.locally_committed_proposal_indexes).is_empty());

    let committed = node.status().committed;
    let lost = node.rules.revoke_application_leadership(committed);
    node.lost(lost);
    assert_eq!(
        node.rules.waiting_proposals(),
        [5],
        "snapshot-influenced committed frontier must not decide proposal identity"
    );
    node.storage.apply_snapshot(&snapshot);
    node.finish_snapshot(&snapshot, &proof).unwrap();

    assert_eq!(
        node.answers.get(&5),
        Some(&RaftProposalResult::Rejected),
        "same-index snapshot entry may have overwritten the old leader proposal"
    );
    assert!(node.rules.waiting_proposals().is_empty());
}

#[test]
fn test_self_demoting_snapshot_rejects_uncommitted_suffix_waiter() {
    let mut node = TestNode::new(test_config(), test_engine());
    node.force_leader();

    let snapshot = self_demoting_snapshot(5, 2);
    node.rules.proposal_accepted(6);
    node.raw.raft.raft_log.committed = 4;
    let proof = accept_incoming_snapshot(&mut node, &snapshot);

    let committed = node.status().committed;
    let lost = node.rules.revoke_application_leadership(committed);
    node.lost(lost);
    assert_eq!(
        node.answers.get(&6),
        Some(&RaftProposalResult::Rejected),
        "uncovered proposal must be rejected by ordinary leadership revocation"
    );
    node.storage.apply_snapshot(&snapshot);
    node.finish_snapshot(&snapshot, &proof).unwrap();

    assert!(node.rules.waiting_proposals().is_empty());
}

#[test]
fn snapshots_need_their_own_proof_and_a_durable_index() {
    let mut node = TestNode::new(test_config(), test_engine());
    node.force_leader();
    let snapshot = self_demoting_snapshot(5, 2);
    let other = node.rules.snapshot_proposal_identity_for_install(6, 2);
    assert_eq!(
        node.finish_snapshot(&snapshot, &other),
        Err(SnapshotError::ProofMismatch { proof_index: 6, proof_term: 2, index: 5, term: 2 })
    );
    let own = node.rules.snapshot_proposal_identity_for_install(5, 2);
    assert_eq!(
        node.finish_snapshot(&snapshot, &own),
        Err(SnapshotError::AppliedMismatch { index: 5, stored: 0 })
    );
}

#[test]
fn test_delayed_same_term_read_index_round_cannot_authorize_serving() {
    let mut node = TestNode::new(test_config(), test_engine());
    node.elect();
    apply_v1_voter_change(&mut node, 2);
    let before = node.rules.published_serving_lease_expires_at();
    node.leases.clear();

    let sent_at = node.now;
    let context =
        node.start_lease_round(sent_at).expect("leader should start a lease ReadIndex round");
    let valid_until = node.rules.pending_serving_lease_round().unwrap().valid_until;
    let response = heartbeat_response(&node, 2, context);
    node.step(response);
    let read_states = node.take_read_states();
    assert_eq!(read_states.len(), 1, "same-term response must be protocol-valid");

    node.handle_read_states(read_states, valid_until + MILLISECOND);
    assert!(node.leases.is_empty());
    assert!(node.rules.pending_serving_lease_round().is_none());
    assert_eq!(node.rules.published_serving_lease_expires_at(), before);
}

#[test]
fn test_mismatched_and_duplicate_lease_round_contexts_are_ignored() {
    let mut node = TestNode::new(test_config(), test_engine());
    node.elect();
    apply_v1_voter_change(&mut node, 2);
    node.leases.clear();

    let sent_at = node.now;
    let context =
        node.start_lease_round(sent_at).expect("leader should start a lease ReadIndex round");
    let valid_until = node.rules.pending_serving_lease_round().unwrap().valid_until;
    let nonce = u64::from_be_bytes(context[context.len() - 8..].try_into().unwrap());
    let mismatched_context =
        serving_lease_read_index_context(node.rules.node_id(), node.raw.raft.term, nonce + 1);
    let response = heartbeat_response(&node, 2, mismatched_context.clone());
    node.step(response);
    assert!(node.take_read_states().is_empty());
    let mismatched = ReadState { index: 1, request_ctx: mismatched_context };
    node.handle_read_states(vec![mismatched], sent_at);
    assert_eq!(
        node.rules.pending_serving_lease_round().map(|round| round.context.clone()),
        Some(context.clone())
    );
    assert!(node.leases.is_empty());

    let response = heartbeat_response(&node, 2, context);
    node.step(response);
    let read_state = node
        .take_read_states()
        .pop()
        .expect("matching quorum response should complete ReadIndex");
    node.handle_read_states(vec![read_state.clone(), read_state], sent_at);
    assert_eq!(node.leases, [valid_until]);
    assert!(node.rules.pending_serving_lease_round().is_none());
}

#[test]
fn test_joint_configuration_lease_round_requires_both_voter_majorities() {
    let mut node = TestNode::new(test_config(), test_engine());
    node.elect();
    apply_v1_voter_change(&mut node, 2);
    apply_v1_voter_change(&mut node, 3);
    let index = node.rules.durable_applied_index() + 1;
    let enter_joint = configuration_entry(index, EntryType::EntryConfChangeV2, enter_joint_v2());
    classify_configuration(&mut node, enter_joint).unwrap();
    let joint = node.storage.read(|rules| rules.conf_state());
    assert_eq!(sorted_members(&joint.voters), vec![1, 2, 4]);
    assert_eq!(sorted_members(&joint.voters_outgoing), vec![1, 2, 3]);
    node.leases.clear();

    let sent_at = node.now;
    let context = node
        .start_lease_round(sent_at)
        .expect("joint-config leader should start a lease ReadIndex round");
    let valid_until = node.rules.pending_serving_lease_round().unwrap().valid_until;

    let response = heartbeat_response(&node, 4, context.clone());
    node.step(response);
    assert!(
        node.take_read_states().is_empty(),
        "incoming voter majority alone must not complete a joint ReadIndex"
    );
    assert!(node.leases.is_empty());

    let response = heartbeat_response(&node, 2, context);
    node.step(response);
    let read_states = node.take_read_states();
    assert_eq!(read_states.len(), 1);
    node.handle_read_states(read_states, sent_at);
    assert_eq!(node.leases, [valid_until]);
}

#[test]
fn test_rejects_malformed_configuration_payload_without_advancing() {
    let engine = test_engine();
    persist_committed_entries_with_peers(
        engine.clone(),
        vec![1],
        vec![configuration_entry(1, EntryType::EntryConfChangeV2, vec![0xff])],
    );

    let mut node = TestNode::new(test_config(), engine);
    let err = node
        .try_process_ready()
        .expect_err("malformed configuration payload must fail closed");
    assert!(
        err.contains("Failed to decode v2 Raft configuration entry"),
        "unexpected error: {err}"
    );
    assert_eq!(node.raw.raft.raft_log.applied, 0);
    assert_eq!(node.storage.applied_index(), 0);
    assert_eq!(node.storage.voters(), [1]);
}

#[test]
fn test_rejects_empty_v1_configuration_payload_without_advancing() {
    let mut node = TestNode::new(test_config(), test_engine());
    let entry = configuration_entry(1, EntryType::EntryConfChange, Vec::new());
    let err = match classify_configuration(&mut node, entry) {
        Ok(()) => panic!("empty v1 configuration payload must fail closed"),
        Err(err) => err,
    };
    assert!(
        err.contains("v1 Raft configuration entry at index 1 has an empty payload"),
        "unexpected error: {err}"
    );
    assert_eq!(node.raw.raft.raft_log.applied, 0);
    assert_eq!(node.storage.applied_index(), 0);
    assert_eq!(node.storage.voters(), [1]);
}

#[test]
fn configuration_entries_come_in_their_turn() {
    let node = raft_node::RaftNode::new(test_config(), 4);
    assert_eq!(
        check_configuration_entry(&node, 6, EntryKind::ConfChange, &add_voter_v1(2))
            .unwrap_err()
            .message(),
        "Raft configuration entry at index 6 is not next after durable applied index 4"
    );
    let said = ConfChange::parse_from_bytes(&[0xff]).unwrap_err().to_string();
    let error =
        check_configuration_entry(&node, 5, EntryKind::ConfChange, &vec![0xff]).unwrap_err();
    assert_eq!(
        error.message(),
        format!("Failed to decode v1 Raft configuration entry at index 5: {said}")
    );
    assert_eq!(error, ConfigurationError::Undecodable { index: 5, version: 1, error: said });
    let said = ConfChangeV2::parse_from_bytes(&[0xff]).unwrap_err().to_string();
    assert_eq!(
        check_configuration_entry(&node, 5, EntryKind::ConfChangeV2, &vec![0xff])
            .unwrap_err()
            .message(),
        format!("Failed to decode v2 Raft configuration entry at index 5: {said}")
    );
    assert_eq!(
        check_configuration_entry(&node, 5, EntryKind::Normal, &vec![1]).unwrap_err(),
        ConfigurationError::NotConfiguration { index: 5 }
    );
    assert_eq!(judge_configuration(&node, 5, EntryKind::ConfChangeV2, true, None), None);
    assert_eq!(
        judge_configuration(&node, 5, EntryKind::ConfChangeV2, true, Some("bad".to_string())),
        Some(ConfigurationError::Undecodable { index: 5, version: 2, error: "bad".to_string() })
    );
}

#[test]
fn test_configuration_persistence_failure_does_not_advance_applied_index() {
    let engine = test_engine();
    let entry = configuration_entry(1, EntryType::EntryConfChange, add_voter_v1(2));
    persist_committed_entries_with_peers(engine.clone(), vec![1], vec![entry.clone()]);

    let mut node = TestNode::new(test_config(), engine.clone());
    node.storage.fail_next_write();
    let err = match classify_configuration(&mut node, entry) {
        Ok(()) => panic!("membership persistence failure must fail closed"),
        Err(err) => err,
    };
    assert!(
        err.contains("injected raft-engine write failure"),
        "unexpected error: {err}"
    );
    assert_eq!(node.rules.durable_applied_index(), 0);
    assert_eq!(node.raw.raft.raft_log.applied, 0);
    assert_eq!(node.storage.applied_index(), 0);
    assert_eq!(node.storage.voters(), [1]);
    assert_eq!(
        node.raw.store().voters(),
        [1],
        "failed persistence must not publish membership to RawNode storage"
    );

    // The protocol's volatile state has changed already, so the only safe
    // response is to stop this node. A fresh node recovers the still-unapplied
    // committed entry from the durable log and applies it once.
    drop(node);
    let mut restarted = TestNode::new(test_config(), engine);
    assert!(restarted.try_process_ready().unwrap().is_empty());
    assert_eq!(restarted.storage.applied_index(), 1);
    assert_eq!(restarted.storage.voters(), [1, 2]);
    assert!(restarted.try_process_ready().unwrap().is_empty());
}

#[test]
fn test_single_node_election() {
    let mut node = TestNode::new(test_config(), test_engine());

    // Tick enough times to trigger election.
    node.tick_twenty_times();
    node.process_one_ready();

    assert!(node.rules.is_leader(), "Single node should become leader");
    assert!(
        node.rules.is_leader_ready(),
        "single-node leader should apply its current-term barrier"
    );
}

#[test]
fn test_elected_leader_waits_for_committed_prefix_before_ready() {
    let engine = test_engine();
    let storage = TestStorage::new(engine.clone(), vec![1]);
    let entry = normal_entry(1, 1, b"committed before election");
    storage.append(&[entry], Some(&hard_state_at(1, 0, 1))).unwrap();
    assert_eq!(storage.applied_index(), 0);
    drop(storage);

    let mut node = TestNode::new(test_config(), engine);
    node.tick_twenty_times();
    node.try_process_ready_with_apply(|node, data| {
        assert_eq!(data, b"committed before election");
        assert_eq!(
            node.events,
            ["elected"],
            "readiness and lease must remain closed while the committed prefix applies",
        );
        node.events.push("applied");
        Ok(())
    })
    .unwrap();

    assert!(node.rules.is_leader());
    assert!(node.rules.is_leader_ready());
    assert_eq!(node.storage.applied_index(), 2);
    assert_eq!(
        node.events,
        ["elected", "applied", "ready"],
        "readiness must precede lease authorization",
    );

    let lease_context = node
        .rules
        .pending_serving_lease_round()
        .map(|round| round.context.clone())
        .expect("ready leader should start a Safe ReadIndex lease round");
    let read_states = node.take_read_states();
    assert_eq!(read_states.len(), 1);
    assert_eq!(
        read_states[0].request_ctx, lease_context,
        "only the correlated Safe ReadIndex result may authorize serving"
    );
    node.handle_read_states(read_states, node.now);
    assert_eq!(node.events, ["elected", "applied", "ready", "lease"]);
}

#[test]
fn test_elected_but_unready_leader_rejects_proposals() {
    let mut node = TestNode::new(test_config(), test_engine());
    node.tick_twenty_times();
    assert_eq!(node.raw.raft.state, StateRole::Leader);
    assert!(!node.rules.is_leader_ready());
    assert_eq!(node.propose(b"must wait for readiness".to_vec()), None);
}

#[test]
fn test_local_proposal_commits_once_and_records_ordered_apply() {
    let mut node = TestNode::new(test_config(), test_engine());

    // Become leader first.
    node.tick_twenty_times();
    node.process_one_ready();
    assert!(node.rules.is_leader());

    let applied_before = node.storage.applied_index();
    let index = node.propose(b"test mutation".to_vec()).unwrap();

    // This is a local proposal: it does not go through the state machine, and
    // its apply is recorded in order.
    let mut committed_data = Vec::new();
    for _ in 0..10 {
        node.raw.tick();
        committed_data.extend(node.process_one_ready());
        if node.rules.waiting_proposals().is_empty() {
            break;
        }
    }

    assert_eq!(node.answers.get(&index), Some(&RaftProposalResult::Committed { index }));
    assert!(
        committed_data.is_empty(),
        "local proposal must not be replayed through the remote apply callback"
    );
    assert_eq!(node.storage.applied_index(), index);
    assert!(index > applied_before);
    assert!(node.rules.waiting_proposals().is_empty());
}

#[test]
fn test_run_loop_wakes_on_mailbox_proposal() {
    let mut node = TestNode::new(test_config(), test_engine());
    node.tick_twenty_times();
    node.process_one_ready();
    assert!(node.rules.is_leader());

    let mut running = Running::new(node);
    assert!(!running.run_until_it_waits());
    // No time passes: the loop need not wait for its next tick.
    running.mailbox.push_back(Mail::Propose(b"mailbox proposal".to_vec()));
    assert!(!running.run_until_it_waits());
    assert!(running
        .node
        .answers
        .values()
        .any(|answer| matches!(answer, RaftProposalResult::Committed { .. })));

    running.mailbox.push_back(Mail::Shutdown);
    assert!(running.run_until_it_waits());
}

#[test]
fn test_run_loop_handles_mailbox_while_state_machine_apply_is_blocked() {
    let engine = test_engine();
    let storage = TestStorage::new(engine.clone(), vec![1]);
    let entry = normal_entry(1, 1, b"blocked apply");
    storage.append(&[entry], Some(&hard_state_at(1, 0, 1))).unwrap();
    assert_eq!(storage.applied_index(), 0);
    drop(storage);

    let mut running = Running::new(TestNode::new(test_config(), engine));
    assert!(!running.run_until_it_waits());
    assert_eq!(running.jobs, [1], "state-machine apply callback did not start");
    running.mailbox.push_back(Mail::Shutdown);
    assert!(
        running.run_until_it_waits(),
        "Raft run loop did not process shutdown while apply blocked"
    );
}

#[test]
fn a_finished_apply_lets_the_next_entry_go() {
    let engine = test_engine();
    let storage = TestStorage::new(engine.clone(), vec![1]);
    let entries = [normal_entry(1, 1, b"first"), normal_entry(2, 1, b"second")];
    storage.append(&entries, Some(&hard_state_at(1, 0, 2))).unwrap();
    drop(storage);

    let mut running = Running::new(TestNode::new(test_config(), engine));
    assert!(!running.run_until_it_waits());
    assert_eq!(running.jobs, [1]);
    running.applied.push_back(1);
    assert!(!running.run_until_it_waits());
    assert_eq!(running.jobs, [1, 2]);
    assert_eq!(running.node.storage.applied_index(), 1);
    running.applied.push_back(2);
    assert!(!running.run_until_it_waits());
    assert_eq!(running.node.storage.applied_index(), 2);
}

#[test]
fn nothing_is_taken_after_a_failed_apply() {
    let engine = test_engine();
    let storage = TestStorage::new(engine.clone(), vec![1]);
    let entries = [normal_entry(1, 1, b"first"), normal_entry(2, 1, b"second")];
    storage.append(&entries, Some(&hard_state_at(1, 0, 2))).unwrap();
    drop(storage);

    let mut running = Running::new(TestNode::new(test_config(), engine));
    assert!(!running.run_until_it_waits());
    assert_eq!(running.jobs, [1]);
    let failed = running.run.finish_state_machine_apply(&mut running.node.rules, 1, false);
    assert_eq!(failed, Err(()));
    assert!(matches!(
        running.run.schedule_next_committed_entry(&mut running.node.rules),
        NextEntry::Nothing
    ));
    assert_eq!(running.node.rules.durable_applied_index(), 0);
}

#[test]
fn test_leader_keeps_quorum_while_local_apply_is_pending() {
    let peers = vec![1u64, 2, 3];
    let mut nodes: Vec<Running> = peers
        .iter()
        .map(|node_id| {
            let config = RaftNodeConfig { node_id: *node_id, ..test_config_with_peers(peers.clone()) };
            Running::new(TestNode::new(config, test_engine()))
        })
        .collect();
    nodes[0].node.raw.campaign().unwrap();
    for _ in 0..500 {
        if nodes[0].node.rules.is_leader_ready() {
            break;
        }
        for running in nodes.iter_mut() {
            while let Some(index) = running.jobs.pop_front() {
                running.applied.push_back(index);
            }
        }
        pass(&mut nodes, 10);
    }
    assert!(nodes[0].node.rules.is_leader_ready(), "node 1 did not become ready leader");

    nodes[0].mailbox.push_back(Mail::Propose(b"slow local apply".to_vec()));
    pass(&mut nodes, 1_000);
    let first_index = *nodes[0].node.answers.keys().max().expect("first proposal did not commit");
    assert_eq!(
        nodes[0].node.answers[&first_index],
        RaftProposalResult::Committed { index: first_index },
        "ready leader rejected first proposal"
    );

    // Hold the local database apply beyond the randomized election timeout.
    // Consensus transport must continue independently or a healthy follower
    // will start an election.
    pass(&mut nodes, 3_000);

    nodes[0].mailbox.push_back(Mail::MarkApplied(first_index));
    pass(&mut nodes, 100);
    assert_eq!(nodes[0].node.storage.applied_index(), first_index);

    nodes[0].mailbox.push_back(Mail::Propose(b"leader retained quorum".to_vec()));
    pass(&mut nodes, 1_000);
    let second_index = *nodes[0].node.answers.keys().max().unwrap();
    assert!(second_index > first_index, "second proposal did not resolve");
    assert_eq!(
        nodes[0].node.answers[&second_index],
        RaftProposalResult::Committed { index: second_index },
        "leader lost quorum while local apply was pending"
    );
    assert!(
        !nodes[0].node.events.contains(&"lost"),
        "node 1 reported leadership loss while all three nodes were healthy"
    );

    nodes[0].mailbox.push_back(Mail::MarkApplied(second_index));
    pass(&mut nodes, 100);
    assert_eq!(nodes[0].node.storage.applied_index(), second_index);
    for running in nodes.iter_mut() {
        running.mailbox.push_back(Mail::Shutdown);
        assert!(running.run_until_it_waits());
    }
}

#[test]
fn test_ready_persistence_failure_returns_before_advance() {
    let mut node = TestNode::new(test_config(), test_engine());
    node.tick_twenty_times();
    node.process_one_ready();
    assert!(node.rules.is_leader());

    let persisted_last_index = node.storage.last_index().unwrap();
    node.raw.propose(vec![], b"must not persist".to_vec()).unwrap();
    node.storage.fail_next_write();

    let err = node
        .try_process_ready()
        .expect_err("Ready processing should fail on raft-engine write failure");
    assert!(err.contains("injected raft-engine write failure"), "unexpected error: {err}");
    assert_eq!(
        node.storage.last_index().unwrap(),
        persisted_last_index,
        "failed Ready processing must not persist the proposed entry",
    );
}

#[test]
fn test_state_machine_apply_failure_returns_before_advance_apply() {
    let mut node = TestNode::new(test_config(), test_engine());
    node.tick_twenty_times();
    node.process_one_ready();
    assert!(node.rules.is_leader());

    node.raw.propose(vec![], b"poison entry".to_vec()).unwrap();
    let applied_before = node.raw.raft.raft_log.applied;

    let err = node
        .try_process_ready_with_apply(|_, _| {
            Err("injected state machine apply failure".to_string())
        })
        .expect_err("Ready processing should fail on state-machine apply failure");
    assert!(err.contains("injected state machine apply failure"), "unexpected error: {err}");
    assert_eq!(
        node.raw.raft.raft_log.applied, applied_before,
        "failed state-machine apply must not advance the Raft applied index",
    );
}

#[test]
fn test_restart_replays_committed_but_unapplied_entry() {
    let engine = test_engine();
    let storage = TestStorage::new(engine.clone(), vec![1]);
    let entry = normal_entry(1, 1, b"committed but unapplied");
    storage.append(&[entry], Some(&hard_state_at(1, 0, 1))).unwrap();
    assert_eq!(storage.applied_index(), 0);
    drop(storage);

    let mut node = TestNode::new(test_config(), engine);
    assert_eq!(
        node.raw.raft.raft_log.applied, 0,
        "restart must initialize applied from durable applied index, not HardState.commit",
    );

    let committed = node.process_one_ready();
    assert!(
        committed.iter().any(|data| data == b"committed but unapplied"),
        "committed-but-unapplied entry should replay after restart: {committed:?}",
    );
    assert_eq!(node.storage.applied_index(), 1);
}

#[test]
fn test_restart_after_snapshot_applies_each_later_entry_exactly_once() {
    let engine = test_engine();
    let storage = TestStorage::new(engine.clone(), vec![1]);
    storage.apply_snapshot(&test_snapshot(8, 2, vec![1], vec![]));
    let entry = normal_entry(9, 3, b"after snapshot");
    storage.append(&[entry], Some(&hard_state_at(3, 1, 9))).unwrap();
    drop(storage);

    let mut node = TestNode::new(test_config(), engine.clone());
    assert_eq!(node.raw.raft.raft_log.applied, 8);
    let committed = node.process_one_ready();
    assert_eq!(
        committed.iter().filter(|data| data.as_slice() == b"after snapshot").count(),
        1,
    );
    assert_eq!(node.storage.applied_index(), 9);
    drop(node);

    let mut restarted = TestNode::new(test_config(), engine);
    assert_eq!(restarted.raw.raft.raft_log.applied, 9);
    assert!(
        restarted.process_one_ready().is_empty(),
        "a second restart must not replay an entry already durably applied",
    );
}

#[test]
fn test_leadership_callback() {
    let mut node = TestNode::new(test_config(), test_engine());
    assert!(!node.events.contains(&"elected"));
    assert_eq!(node.leader_id, 0);

    // Trigger election.
    node.tick_twenty_times();
    node.process_one_ready();

    assert!(node.rules.is_leader());
    assert!(
        node.events.contains(&"elected"),
        "on_became_leader callback should have fired"
    );
    assert_eq!(node.leader_id, 1, "on_leader_changed should publish the elected leader ID");
}

#[test]
fn entries_applied_out_of_order_wait_for_the_gap() {
    let mut node = raft_node::RaftNode::new(test_config(), 5);
    assert_eq!(node.record_applied_index(7), None);
    assert_eq!(node.record_applied_index(5), None);
    assert_eq!(node.record_applied_index(6), Some(7));
    node.applied_index_persisted(7);
    assert_eq!(node.durable_applied_index(), 7);
}

#[test]
fn ready_work_is_made_durable_before_it_is_told() {
    let steps = ready_steps(true, true, true);
    let place = |step| steps.iter().position(|s| *s == step).unwrap();
    assert!(place(ReadyStep::CaptureSnapshotProof) < place(ReadyStep::FollowSoftState));
    assert!(place(ReadyStep::StageSnapshot) < place(ReadyStep::InstallSnapshot));
    assert!(place(ReadyStep::InstallSnapshot) < place(ReadyStep::CommitSnapshot));
    assert!(
        place(ReadyStep::PersistEntriesAndHardState) < place(ReadyStep::SendPersistedMessages)
    );
    assert!(place(ReadyStep::SendPersistedMessages) < place(ReadyStep::AdvanceAppend));
    assert!(ready_steps(false, false, false).contains(&ReadyStep::PersistEntries));
}

#[test]
fn the_loop_waits_only_when_there_is_nothing_to_do() {
    let mut run = RunLoop::new(0);
    assert_eq!(run.step(LoopEvent::Resumed), LoopAction::TryMailbox);
    assert_eq!(run.step(LoopEvent::MailboxEmpty), LoopAction::TryApplies);
    assert_eq!(run.step(LoopEvent::AppliesEmpty), LoopAction::ReadClock);
    let next = run.step(LoopEvent::Now { now: 1 });
    assert_eq!(next, LoopAction::PollReady);
    let next = run.step(LoopEvent::ReadyPolled { has_ready: false, snapshot_in_raft: false });
    assert_eq!(next, LoopAction::Schedule);
    assert_eq!(
        run.step(LoopEvent::Scheduled { made_progress: false }),
        LoopAction::Wait { until: raft_node::TICK_INTERVAL }
    );
    assert_eq!(run.step(LoopEvent::MessageHandled), LoopAction::TryMailbox);
    assert_eq!(run.step(LoopEvent::ShutdownRequested), LoopAction::Stop);
}

#[test]
fn followers_that_lag_are_counted() {
    let voter = |id, matched, recent_active| VoterProgress {
        id,
        followed: true,
        recent_active,
        matched,
    };
    let health = replication_health(
        &vec![voter(1, 0, false), voter(2, 90, true), voter(3, 100, false)],
        1,
        100,
    );
    assert_eq!(health.configured_voters, 3);
    assert_eq!(health.recent_active_voters, 2);
    assert_eq!(health.lagging_followers, 1);
    assert_eq!(health.max_follower_lag_entries, 10);
    assert_eq!(health.total_follower_lag_entries, 10);
}

#[test]
fn leases_last_two_heartbeats() {
    assert_eq!(test_config().leader_serving_lease_duration(), 600 * MILLISECOND);
    assert_eq!(RaftNodeConfig::default().raft_settings(9).applied, 9);
}
