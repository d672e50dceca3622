//! Invalidations on their way to the node that owns the subscriptions.
//!
//! The data itself travels through the log. This call closes the time between
//! a commit on a remote partition and the next rerun of the subscriptions that
//! it touches.

use vstd::prelude::*;

use crate::candidates::{Attempts, AttemptsView, Purpose};
use crate::candidates;
use crate::commit_delta::Timestamp;
use crate::node_addresses::NodeAddresses;
use crate::ordered;
use crate::ordered::NameSet;
use crate::partition::{PartitionId, PlacementVersion};
use crate::text;

verus! {

/// How long a call may take, in milliseconds.
pub const INVALIDATION_GRPC_TIMEOUT_MS: u64 = 5_000;

/// The request that tells an authority which tables were written.
#[derive(Clone, Debug, PartialEq, Eq)]
pub struct InvalidateTablesRequest {
    pub authority_partition: u32,
    pub placement_version: u64,
    pub commit_ts: u64,
    pub table_names: Vec<String>,
}

/// The request for a commit.
pub fn invalidate_tables_request(
    authority_partition: PartitionId,
    placement_version: PlacementVersion,
    commit_ts: Timestamp,
    table_names: &NameSet,
) -> (r: InvalidateTablesRequest)
    requires
        table_names.wf(),
    ensures
        r.authority_partition == authority_partition.0,
        r.placement_version == placement_version.0,
        r.commit_ts == commit_ts@,
        text::texts(r.table_names@) == table_names.keys(),
{
    let mut names: Vec<String> = Vec::new();
    let mut i: usize = 0;
    assert(text::texts(names@) =~= table_names.keys().take(0));
    while i < table_names.len()
        invariant
            i <= table_names.keys().len(),
            text::texts(names@) == table_names.keys().take(i as int),
        decreases table_names.keys().len() - i,
    {
        let ghost before = names@;
        names.push(table_names.key_at(i).clone());
        proof {
            let name = table_names.keys()[i as int];
            assert(text::texts(names@) =~= text::texts(before).push(name));
            assert(table_names.keys().take(i + 1) =~= table_names.keys().take(i as int).push(name));
        }
        i = i + 1;
    }
    assert(table_names.keys().take(table_names.keys().len() as int) =~= table_names.keys());
    InvalidateTablesRequest {
        authority_partition: authority_partition.0,
        placement_version: placement_version.0,
        commit_ts: commit_ts.nanos(),
        table_names: names,
    }
}

/// A request lists each table that was written, once.
pub proof fn request_names_every_table(table_names: &NameSet, name: Seq<char>)
    requires
        table_names.wf(),
    ensures
        table_names.keys().contains(name) <==> table_names@.dom().contains(name),
        table_names.keys().no_duplicates(),
{
    table_names.entries_agree();
    let keys = table_names.keys();
    assert forall|i: int, j: int| 0 <= i < keys.len() && 0 <= j < keys.len() && i
        != j implies keys[i] != keys[j] by {
        text::text_order_is_total(keys[i], keys[j], keys[i]);
        if i < j {
            assert(<String as ordered::OrderedKey>::before(keys[i], keys[j]));
        } else {
            assert(<String as ordered::OrderedKey>::before(keys[j], keys[i]));
        }
    }
}

/// What came of one attempt: its address, and its error where it failed.
#[derive(Clone, Debug)]
pub struct Outcome {
    pub address: String,
    pub failure: Option<String>,
}

/// The failures among the first `n` outcomes, up to the first success.
pub open spec fn failures_of(outcomes: Seq<Outcome>, n: nat) -> Seq<Seq<char>>
    decreases n,
{
    if n == 0 {
        Seq::empty()
    } else {
        let before = failures_of(outcomes, (n - 1) as nat);
        match outcomes[n - 1].failure {
            Some(error) => before.push(
                candidates::failure_of(outcomes[n - 1].address@, error@),
            ),
            None => before,
        }
    }
}

/// One of the attempts has succeeded.
pub open spec fn some_succeeded(outcomes: Seq<Outcome>) -> bool {
    exists|i: int| 0 <= i < outcomes.len() && (#[trigger] outcomes[i]).failure is None
}

/// Delivers invalidations to the authority of a partition.
#[derive(Clone, Copy, Debug, PartialEq, Eq, Structural)]
pub struct GrpcSubscriptionInvalidationClient;

impl GrpcSubscriptionInvalidationClient {
    pub fn new() -> (r: Self) {
        GrpcSubscriptionInvalidationClient
    }

    /// The addresses to call, all of them at once.
    pub fn candidates(
        &self,
        authority_partition: PartitionId,
        known: &Option<NodeAddresses>,
    ) -> (r: Result<Attempts, String>)
        requires
            known matches Some(addresses) ==> addresses.wf(),
        ensures
            match r {
                Ok(attempts) => {
                    &&& known matches Some(addresses)
                    &&& addresses@.dom().contains(authority_partition.0)
                    &&& attempts@ == (AttemptsView {
                        purpose: Purpose::SubscriptionAuthority,
                        partition: authority_partition,
                        addresses: addresses@[authority_partition.0],
                        failures: Seq::empty(),
                    })
                },
                Err(error) => {
                    &&& known matches Some(addresses) ==> !addresses@.dom().contains(
                        authority_partition.0,
                    )
                    &&& error@ == candidates::no_candidates(
                        Purpose::SubscriptionAuthority,
                        authority_partition,
                    )
                },
            },
    {
        Attempts::new(Purpose::SubscriptionAuthority, authority_partition, known)
    }

    /// What comes of a delivery, by the outcomes in the order in which they
    /// came in. One success is enough.
    pub fn settle(&self, attempts: Attempts, outcomes: &Vec<Outcome>) -> (r: Result<(), String>)
        requires
            attempts@.failures.len() == 0,
        ensures
            match r {
                Ok(_) => some_succeeded(outcomes@),
                Err(error) => !some_succeeded(outcomes@) && error@ == candidates::all_failed(
                    attempts@.purpose,
                    attempts@.partition,
                    failures_of(outcomes@, outcomes@.len()),
                ),
            },
    {
        let ghost given = attempts@;
        let mut attempts = attempts;
        let mut i: usize = 0;
        assert(attempts@.failures =~= Seq::empty());
        while i < outcomes.len()
            invariant
                i <= outcomes@.len(),
                attempts@.purpose == given.purpose,
                attempts@.partition == given.partition,
                attempts@.failures == failures_of(outcomes@, i as nat),
                forall|k: int| 0 <= k < i ==> (#[trigger] outcomes@[k]).failure is Some,
            decreases outcomes@.len() - i,
        {
            match &outcomes[i].failure {
                None => {
                    assert(outcomes@[i as int].failure is None);
                    return Ok(());
                },
                Some(error) => {
                    attempts.failed(outcomes[i].address.as_str(), error.as_str());
                },
            }
            i = i + 1;
        }
        Err(attempts.error())
    }
}

/// A delivery succeeds where any of the attempts has, whichever it is, and fails
/// only where all have failed.
pub proof fn one_success_is_enough(outcomes: Seq<Outcome>, i: int)
    ensures
        0 <= i < outcomes.len() && outcomes[i].failure is None ==> some_succeeded(outcomes),
        (forall|k: int| 0 <= k < outcomes.len() ==> (#[trigger] outcomes[k]).failure is Some)
            ==> !some_succeeded(outcomes),
{
}

/// Where every attempt has failed, the error tells of each of them, in the order
/// in which they came in: the address and what it said.
pub proof fn failed_deliveries_tell_of_every_attempt(outcomes: Seq<Outcome>, n: nat, i: int)
    requires
        0 <= i < n <= outcomes.len(),
        forall|k: int| 0 <= k < outcomes.len() ==> (#[trigger] outcomes[k]).failure is Some,
    ensures
        failures_of(outcomes, n).len() == n,
        failures_of(outcomes, n)[i] == outcomes[i].address@ + ": "@
            + outcomes[i].failure->Some_0@,
    decreases n,
{
    if n > 1 {
        failed_deliveries_tell_of_every_attempt(
            outcomes,
            (n - 1) as nat,
            if i < n - 1 {
                i
            } else {
                0
            },
        );
    } else {
        assert(failures_of(outcomes, 0) == Seq::<Seq<char>>::empty());
    }
    assert(outcomes[n - 1].failure is Some);
}

} // verus!
