//! The background workers of an application and the order in which they stop.

use vstd::prelude::*;

verus! {

/// A background worker.
#[derive(Clone, Copy, Debug, PartialEq, Eq, Structural)]
pub enum Worker {
    UsageGaugesTracking,
    TableSummary,
    SystemTableCleanup,
    Schema,
    Index,
    Search,
    SearchAndVectorBootstrap,
    FastForward,
    Export,
    SnapshotImport,
    ScheduledJobRunner,
    CronJobExecutor,
    Migration,
}

/// How a worker is stopped.
#[derive(Clone, Copy, Debug, PartialEq, Eq, Structural)]
pub enum StopMode {
    /// It is asked to stop, and its answer may be an error.
    Awaited,
    /// It is told to stop and not waited for.
    Signalled,
    /// It is told to stop and waited for, which may be an error.
    Joined,
}

/// One step of a shutdown.
#[derive(Clone, Copy, Debug, PartialEq, Eq, Structural)]
pub struct ShutdownStep {
    pub worker: Worker,
    pub mode: StopMode,
}

/// The steps of a shutdown, in their order.
pub open spec fn shutdown_order() -> Seq<ShutdownStep> {
    seq![
        ShutdownStep { worker: Worker::UsageGaugesTracking, mode: StopMode::Awaited },
        ShutdownStep { worker: Worker::TableSummary, mode: StopMode::Awaited },
        ShutdownStep { worker: Worker::SystemTableCleanup, mode: StopMode::Signalled },
        ShutdownStep { worker: Worker::Schema, mode: StopMode::Signalled },
        ShutdownStep { worker: Worker::Index, mode: StopMode::Joined },
        ShutdownStep { worker: Worker::Search, mode: StopMode::Signalled },
        ShutdownStep { worker: Worker::SearchAndVectorBootstrap, mode: StopMode::Signalled },
        ShutdownStep { worker: Worker::FastForward, mode: StopMode::Signalled },
        ShutdownStep { worker: Worker::Export, mode: StopMode::Joined },
        ShutdownStep { worker: Worker::SnapshotImport, mode: StopMode::Joined },
        ShutdownStep { worker: Worker::ScheduledJobRunner, mode: StopMode::Signalled },
        ShutdownStep { worker: Worker::CronJobExecutor, mode: StopMode::Signalled },
        ShutdownStep { worker: Worker::Migration, mode: StopMode::Joined },
    ]
}

/// The number of workers.
pub const WORKERS: usize = 13;

/// The step in a place of the order.
pub fn shutdown_step(place: usize) -> (r: ShutdownStep)
    requires
        place < WORKERS,
    ensures
        r == shutdown_order()[place as int],
{
    let (worker, mode) = if place == 0 {
        (Worker::UsageGaugesTracking, StopMode::Awaited)
    } else if place == 1 {
        (Worker::TableSummary, StopMode::Awaited)
    } else if place == 2 {
        (Worker::SystemTableCleanup, StopMode::Signalled)
    } else if place == 3 {
        (Worker::Schema, StopMode::Signalled)
    } else if place == 4 {
        (Worker::Index, StopMode::Joined)
    } else if place == 5 {
        (Worker::Search, StopMode::Signalled)
    } else if place == 6 {
        (Worker::SearchAndVectorBootstrap, StopMode::Signalled)
    } else if place == 7 {
        (Worker::FastForward, StopMode::Signalled)
    } else if place == 8 {
        (Worker::Export, StopMode::Joined)
    } else if place == 9 {
        (Worker::SnapshotImport, StopMode::Joined)
    } else if place == 10 {
        (Worker::ScheduledJobRunner, StopMode::Signalled)
    } else if place == 11 {
        (Worker::CronJobExecutor, StopMode::Signalled)
    } else {
        (Worker::Migration, StopMode::Joined)
    };
    ShutdownStep { worker, mode }
}

/// Which workers have handles. Usage tracking always has one.
#[derive(Clone, Debug)]
pub struct WorkerHandles {
    held: Vec<bool>,
}

impl WorkerHandles {
    pub closed spec fn wf(&self) -> bool {
        self.held@.len() == WORKERS && self.held@[0]
    }

    /// The handle in each place of the order is held.
    pub closed spec fn handles(&self) -> Seq<bool> {
        self.held@
    }

    /// No handle is held but that of usage tracking.
    pub fn new() -> (r: Self)
        ensures
            r.wf(),
            r.handles().len() == WORKERS,
            forall|i: int| 0 <= i < WORKERS ==> (#[trigger] r.handles()[i] <==> i == 0),
    {
        let mut held: Vec<bool> = Vec::new();
        held.push(true);
        while held.len() < WORKERS
            invariant
                1 <= held@.len() <= WORKERS,
                forall|i: int| 0 <= i < held@.len() ==> (#[trigger] held@[i] <==> i == 0),
            decreases WORKERS - held@.len(),
        {
            held.push(false);
        }
        WorkerHandles { held }
    }

    /// The worker in that place of the order has started.
    pub fn started(&mut self, place: usize)
        requires
            old(self).wf(),
            place < WORKERS,
        ensures
            final(self).wf(),
            final(self).handles() == old(self).handles().update(place as int, true),
    {
        self.held.set(place, true);
    }

    /// The next step of a shutdown that has come to `place`: the first worker
    /// from there on whose handle is held. Its handle is taken, but for that
    /// of usage tracking.
    pub fn take_next(&mut self, place: usize) -> (r: Option<usize>)
        requires
            old(self).wf(),
        ensures
            final(self).wf(),
            match r {
                Some(i) => {
                    &&& place <= i < WORKERS
                    &&& old(self).handles()[i as int]
                    &&& forall|k: int| place <= k < i ==> !#[trigger] old(self).handles()[k]
                    &&& final(self).handles() == old(self).handles().update(i as int, i == 0)
                },
                None => {
                    &&& forall|k: int|
                        place <= k < WORKERS ==> !#[trigger] old(self).handles()[k]
                    &&& final(self).handles() == old(self).handles()
                },
            },
    {
        let mut i: usize = place;
        while i < WORKERS
            invariant
                place <= i,
                i <= WORKERS || i == place,
                self.wf(),
                *self == *old(self),
                forall|k: int| place <= k < i && k < WORKERS ==> !#[trigger] self.held@[k],
            decreases WORKERS - i,
        {
            if self.held[i] {
                self.held.set(i, i == 0);
                return Some(i);
            }
            i = i + 1;
        }
        None
    }
}

/// The places that a whole shutdown stops at, from `place` on.
pub open spec fn stops_from(handles: Seq<bool>, place: nat) -> Seq<nat>
    decreases WORKERS - place,
{
    if place >= WORKERS {
        Seq::empty()
    } else if handles[place as int] {
        seq![place] + stops_from(handles, place + 1)
    } else {
        stops_from(handles, place + 1)
    }
}

/// A shutdown stops every worker that has a handle, each once, and in the
/// order of [`shutdown_order`].
pub proof fn shutdown_stops_every_worker_in_order(handles: Seq<bool>, place: nat)
    requires
        handles.len() == WORKERS,
    ensures
        forall|i: int, j: int|
            0 <= i < j < stops_from(handles, place).len() ==> #[trigger] stops_from(
                handles,
                place,
            )[i] < #[trigger] stops_from(handles, place)[j],
        forall|k: nat| #[trigger]
            stops_from(handles, place).contains(k) <==> place <= k < WORKERS
                && handles[k as int],
    decreases WORKERS - place,
{
    let stops = stops_from(handles, place);
    if place < WORKERS {
        shutdown_stops_every_worker_in_order(handles, place + 1);
        let rest = stops_from(handles, place + 1);
        assert forall|k: nat| #[trigger] stops.contains(k) <==> place <= k < WORKERS
            && handles[k as int] by {
            if handles[place as int] {
                assert(stops =~= seq![place] + rest);
                if stops.contains(k) {
                    let i = stops.index_of(k);
                    if i > 0 {
                        assert(rest[i - 1] == k);
                        assert(rest.contains(k));
                    }
                }
                if k == place {
                    assert(stops[0] == k);
                } else if rest.contains(k) {
                    let i = rest.index_of(k);
                    assert(stops[i + 1] == k);
                }
            }
        }
        assert forall|i: int, j: int| 0 <= i < j < stops.len() implies #[trigger] stops[i]
            < #[trigger] stops[j] by {
            if handles[place as int] {
                assert(stops =~= seq![place] + rest);
                assert(rest.contains(rest[j - 1]));
                if i > 0 {
                    assert(rest[i - 1] < rest[j - 1]);
                }
            }
        }
    }
}

/// A shutdown stops each worker once, and each in its own way: search and schema
/// work, cleanup, fast forward and the job runners are only told, the workers that
/// report usage and summaries are asked, and the others are waited for.
pub proof fn workers_stop_in_their_own_way(i: int, j: int)
    requires
        0 <= i < shutdown_order().len(),
        0 <= j < shutdown_order().len(),
    ensures
        shutdown_order().len() == 13,
        shutdown_order()[i].worker == shutdown_order()[j].worker ==> i == j,
        shutdown_order()[i].mode == (match shutdown_order()[i].worker {
            Worker::UsageGaugesTracking | Worker::TableSummary => StopMode::Awaited,
            Worker::Index | Worker::Export | Worker::SnapshotImport
            | Worker::Migration => StopMode::Joined,
            _ => StopMode::Signalled,
        }),
{
}

/// The order of a shutdown: what reports and what works on indexes and search
/// comes first, then exports and imports, then the jobs, and the migrations last.
pub proof fn shutdown_goes_from_reports_to_migrations(i: int)
    requires
        0 <= i < shutdown_order().len(),
    ensures
        i == (match shutdown_order()[i].worker {
            Worker::UsageGaugesTracking => 0int,
            Worker::TableSummary => 1,
            Worker::SystemTableCleanup => 2,
            Worker::Schema => 3,
            Worker::Index => 4,
            Worker::Search => 5,
            Worker::SearchAndVectorBootstrap => 6,
            Worker::FastForward => 7,
            Worker::Export => 8,
            Worker::SnapshotImport => 9,
            Worker::ScheduledJobRunner => 10,
            Worker::CronJobExecutor => 11,
            Worker::Migration => 12,
        }),
{
}

} // verus!
