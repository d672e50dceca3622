use convex_cluster::commit_client::{LocalCommitClient, ReadOnlyCommitClient};
use convex_cluster::table_number_allocator::{
    first_user_table_number,
    initial_counter,
    Allocation,
    AllocationAction,
    AllocationError,
    AllocationEvent,
    AllocationPhase,
    LocalTableNumberAllocator,
    NatsTableNumberAllocator,
    TableNumber,
};

fn found(counter: u32) -> AllocationEvent {
    AllocationEvent::Found { counter: counter.to_be_bytes().to_vec(), revision: 6 }
}

#[test]
fn numbers_follow_the_counter_and_the_floor() {
    assert_eq!(initial_counter(), first_user_table_number().0.to_be_bytes());
    for (counter, floor, number) in [(20, 10, 20), (20, 30, 30), (20, 20, 20)] {
        let mut allocation = Allocation::new(TableNumber(floor));
        match allocation.step(found(counter)) {
            AllocationAction::Update { counter, revision } => {
                assert_eq!(counter, (number + 1u32).to_be_bytes());
                assert_eq!(revision, 6);
            },
            other => panic!("{other:?}"),
        }
        assert!(matches!(allocation.step(AllocationEvent::Stored), AllocationAction::Finish));
        assert_eq!(allocation.phase, AllocationPhase::Done { number: TableNumber(number) });
    }
    assert_eq!(
        LocalTableNumberAllocator.next_user_table_number(TableNumber(11)),
        TableNumber(11)
    );
}

#[test]
fn conflicts_are_retried_with_growing_waits() {
    let mut allocation = Allocation::new(TableNumber(1));
    for attempt in 0..10u32 {
        assert!(matches!(allocation.step(found(9)), AllocationAction::Update { .. }));
        match allocation.step(AllocationEvent::Conflict) {
            AllocationAction::Sleep { millis } => assert_eq!(millis, 1 << attempt),
            other => panic!("{other:?}"),
        }
        let next = allocation.step(AllocationEvent::Slept);
        if attempt < 9 {
            assert!(matches!(next, AllocationAction::Read));
        } else {
            assert!(matches!(next, AllocationAction::Fail));
        }
    }
    assert_eq!(
        allocation.phase,
        AllocationPhase::Failed { error: AllocationError::Conflicts }
    );
    assert_eq!(
        AllocationError::Conflicts.message(),
        "TableNumberAllocator: Failed to allocate after 10 attempts"
    );
}

#[test]
fn bad_counters_are_refused() {
    let failed = |event| {
        let mut allocation = Allocation::new(TableNumber(1));
        assert!(matches!(allocation.step(event), AllocationAction::Fail));
        allocation.phase
    };
    assert_eq!(
        failed(found(u32::MAX)),
        AllocationPhase::Failed { error: AllocationError::Overflow }
    );
    assert_eq!(
        failed(AllocationEvent::Missing),
        AllocationPhase::Failed { error: AllocationError::CounterNotFound }
    );
    assert_eq!(
        failed(AllocationEvent::Found { counter: vec![1, 2, 3], revision: 1 }),
        AllocationPhase::Failed { error: AllocationError::InvalidCounter }
    );
}

#[test]
fn replicas_refuse_commits() {
    assert_eq!(*LocalCommitClient::new(5u8).committer(), 5);
    assert_eq!(
        ReadOnlyCommitClient.commit_error(),
        "Cannot commit on a Replica node. Mutations must be forwarded to the Primary."
    );
    assert_eq!(
        ReadOnlyCommitClient.load_indexes_error(),
        "Cannot load indexes on a Replica node."
    );
}

/// The counter that all nodes share, and its revision.
struct Shared {
    counter: Vec<u8>,
    revision: u64,
}

impl Shared {
    fn read(&self) -> AllocationEvent {
        AllocationEvent::Found { counter: self.counter.clone(), revision: self.revision }
    }

    fn write(&mut self, action: &AllocationAction) -> AllocationEvent {
        match action {
            AllocationAction::Update { counter, revision } if *revision == self.revision => {
                self.counter = counter.clone();
                self.revision += 1;
                AllocationEvent::Stored
            },
            AllocationAction::Update { .. } => AllocationEvent::Conflict,
            other => panic!("{other:?}"),
        }
    }
}

#[test]
fn no_number_is_given_out_twice() {
    let mut shared = Shared { counter: initial_counter(), revision: 1 };
    let mut first = Allocation::new(TableNumber(1));
    let mut second = Allocation::new(TableNumber(10_050));
    let sent_first = first.step(shared.read());
    let sent_second = second.step(shared.read());
    assert!(matches!(second.step(shared.write(&sent_second)), AllocationAction::Finish));
    assert!(matches!(first.step(shared.write(&sent_first)), AllocationAction::Sleep { .. }));
    assert!(matches!(first.step(AllocationEvent::Slept), AllocationAction::Read));
    let sent_first = first.step(shared.read());
    assert!(matches!(first.step(shared.write(&sent_first)), AllocationAction::Finish));
    assert_eq!(second.phase, AllocationPhase::Done { number: TableNumber(10_050) });
    assert_eq!(first.phase, AllocationPhase::Done { number: TableNumber(10_051) });
    assert_eq!(shared.counter, 10_052u32.to_be_bytes());
}

#[test]
fn allocations_begin_by_reading_the_counter() {
    let (allocation, action) =
        NatsTableNumberAllocator.next_user_table_number(TableNumber(10_007));
    assert!(matches!(action, AllocationAction::Read));
    assert_eq!(allocation, Allocation::new(TableNumber(10_007)));
    assert_eq!(allocation.phase, AllocationPhase::Reading);
}

#[test]
fn a_failed_allocation_leaves_the_counter() {
    let mut shared = Shared { counter: u32::MAX.to_be_bytes().to_vec(), revision: 1 };
    let mut allocation = Allocation::new(TableNumber(1));
    assert!(matches!(allocation.step(shared.read()), AllocationAction::Fail));
    assert_eq!(shared.counter, u32::MAX.to_be_bytes());

    shared.counter = initial_counter();
    let mut unlucky = Allocation::new(TableNumber(1));
    for winner in 0..10u32 {
        let sent = unlucky.step(shared.read());
        let mut other = Allocation::new(TableNumber(1));
        let faster = other.step(shared.read());
        assert!(matches!(other.step(shared.write(&faster)), AllocationAction::Finish));
        assert_eq!(
            other.phase,
            AllocationPhase::Done { number: TableNumber(10_001 + winner) }
        );
        assert!(matches!(unlucky.step(shared.write(&sent)), AllocationAction::Sleep { .. }));
        unlucky.step(AllocationEvent::Slept);
    }
    assert_eq!(
        unlucky.phase,
        AllocationPhase::Failed { error: AllocationError::Conflicts }
    );
    assert_eq!(shared.counter, 10_011u32.to_be_bytes());
}
