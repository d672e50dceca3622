use convex_cluster::scheduled_and_cron_authority::{
    LeadershipNow,
    RaftLeadershipEpoch,
    ScheduledAndCronWorkerAuthority,
};
use convex_cluster::worker_handles::{
    shutdown_step,
    StopMode,
    Worker,
    WorkerHandles,
    WORKERS,
};

#[test]
fn authority_lasts_as_long_as_the_epoch() {
    let lost = LeadershipNow { is_current: false, current: Some(RaftLeadershipEpoch(9)) };
    let kept = LeadershipNow { is_current: true, current: Some(RaftLeadershipEpoch(8)) };
    let single = ScheduledAndCronWorkerAuthority::single_node();
    assert_eq!(single.epoch(), None);
    assert!(single.ensure_current("claim", lost).is_ok());

    let worker = ScheduledAndCronWorkerAuthority::raft(RaftLeadershipEpoch(8));
    assert_eq!(worker.epoch(), Some(RaftLeadershipEpoch(8)));
    assert!(worker.ensure_current("claim", kept).is_ok());
    let error = worker.ensure_current("claim", lost).unwrap_err();
    assert_eq!(error.expected, RaftLeadershipEpoch(8));
    assert_eq!(error.current, Some(RaftLeadershipEpoch(9)));
    assert_eq!(
        error.message("8", "Some(9)"),
        "scheduled job authority lost at claim: expected 8, current Some(9)"
    );
}

#[test]
fn workers_stop_in_order_and_once() {
    let mut handles = WorkerHandles::new();
    for place in 0..WORKERS {
        handles.started(place);
    }
    let mut stopped = Vec::new();
    let mut place = 0;
    while let Some(at) = handles.take_next(place) {
        stopped.push(shutdown_step(at).worker);
        place = at + 1;
    }
    assert_eq!(
        stopped,
        [
            Worker::UsageGaugesTracking,
            Worker::TableSummary,
            Worker::SystemTableCleanup,
            Worker::Schema,
            Worker::Index,
            Worker::Search,
            Worker::SearchAndVectorBootstrap,
            Worker::FastForward,
            Worker::Export,
            Worker::SnapshotImport,
            Worker::ScheduledJobRunner,
            Worker::CronJobExecutor,
            Worker::Migration,
        ]
    );
    assert_eq!(shutdown_step(4).mode, StopMode::Joined);
    assert_eq!(handles.take_next(0), Some(0), "usage tracking keeps its handle");
    assert_eq!(handles.take_next(1), None, "no other worker stops twice");
}

#[test]
fn workers_that_never_started_are_passed_over() {
    let mut handles = WorkerHandles::new();
    handles.started(12);
    assert_eq!(handles.take_next(1), Some(12));
    assert_eq!(handles.take_next(13), None);
}
