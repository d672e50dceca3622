//! The right to run scheduled jobs and cron jobs.
//!
//! A single node always has it. In a cluster a worker generation holds the
//! leadership epoch that it was started in, and asks at each claim and each
//! dispatch whether that epoch still lasts.

use vstd::prelude::*;

verus! {

/// A time during which one node leads a Raft group, by its term.
#[derive(Clone, Copy, Debug, PartialEq, Eq, Structural)]
pub struct RaftLeadershipEpoch(pub u64);

/// What a group knows of its leadership now.
#[derive(Clone, Copy, Debug, PartialEq, Eq, Structural)]
pub struct LeadershipNow {
    /// The epoch that was asked about still lasts.
    pub is_current: bool,
    /// The epoch that lasts, where this node leads.
    pub current: Option<RaftLeadershipEpoch>,
}

#[derive(Clone, Copy, Debug, PartialEq, Eq, Structural)]
pub enum AuthorityKind {
    SingleNode,
    Raft { epoch: RaftLeadershipEpoch },
}

/// The authority of a worker generation.
#[derive(Clone, Copy, Debug, PartialEq, Eq, Structural)]
pub struct ScheduledAndCronWorkerAuthority {
    pub kind: AuthorityKind,
}

/// A worker has lost its authority.
#[derive(Clone, Debug, PartialEq, Eq)]
pub struct ScheduledAndCronAuthorityLost {
    pub boundary: String,
    pub expected: RaftLeadershipEpoch,
    pub current: Option<RaftLeadershipEpoch>,
}

impl ScheduledAndCronAuthorityLost {
    /// The text of the error, with the two epochs as they print.
    pub fn message(&self, expected: &str, current: &str) -> (r: String)
        ensures
            r@ == "scheduled job authority lost at "@ + self.boundary@ + ": expected "@ + expected@
                + ", current "@ + current@,
    {
        let mut s = "scheduled job authority lost at ".to_owned();
        s.append(self.boundary.as_str());
        s.append(": expected ");
        s.append(expected);
        s.append(", current ");
        s.append(current);
        s
    }
}

impl ScheduledAndCronWorkerAuthority {
    pub fn single_node() -> (r: Self)
        ensures
            r.kind == AuthorityKind::SingleNode,
    {
        ScheduledAndCronWorkerAuthority { kind: AuthorityKind::SingleNode }
    }

    pub fn raft(epoch: RaftLeadershipEpoch) -> (r: Self)
        ensures
            r.kind == (AuthorityKind::Raft { epoch }),
    {
        ScheduledAndCronWorkerAuthority { kind: AuthorityKind::Raft { epoch } }
    }

    /// The epoch to ask the group about; a single node asks nobody.
    pub fn epoch(&self) -> (r: Option<RaftLeadershipEpoch>)
        ensures
            r == (match self.kind {
                AuthorityKind::SingleNode => None,
                AuthorityKind::Raft { epoch } => Some(epoch),
            }),
    {
        match self.kind {
            AuthorityKind::SingleNode => None,
            AuthorityKind::Raft { epoch } => Some(epoch),
        }
    }

    /// The worker may go on.
    pub open spec fn holds(&self, now: LeadershipNow) -> bool {
        self.kind is SingleNode || now.is_current
    }

    /// Whether the worker may go on past a boundary.
    pub fn ensure_current(&self, boundary: &str, now: LeadershipNow) -> (r: Result<
        (),
        ScheduledAndCronAuthorityLost,
    >)
        ensures
            match r {
                Ok(_) => self.holds(now),
                Err(lost) => {
                    &&& !self.holds(now)
                    &&& lost.boundary@ == boundary@
                    &&& self.kind == (AuthorityKind::Raft { epoch: lost.expected })
                    &&& lost.current == now.current
                },
            },
    {
        match self.kind {
            AuthorityKind::SingleNode => Ok(()),
            AuthorityKind::Raft { epoch } => if now.is_current {
                Ok(())
            } else {
                Err(
                    ScheduledAndCronAuthorityLost {
                        boundary: boundary.to_owned(),
                        expected: epoch,
                        current: now.current,
                    },
                )
            },
        }
    }
}

/// A single node always goes on, and a worker of a cluster exactly while the
/// epoch that it was started in lasts.
pub proof fn authority_lasts_as_long_as_its_epoch(
    epoch: RaftLeadershipEpoch,
    now: LeadershipNow,
)
    ensures
        (ScheduledAndCronWorkerAuthority { kind: AuthorityKind::SingleNode }).holds(now),
        (ScheduledAndCronWorkerAuthority { kind: AuthorityKind::Raft { epoch } }).holds(now)
            <==> now.is_current,
{
}

} // verus!
