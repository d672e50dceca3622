//! How transactions are committed: by the committer of this node, or not at
//! all on a node that only reads.

use vstd::prelude::*;

verus! {

/// Commits through the committer of this node.
#[derive(Clone, Debug)]
pub struct LocalCommitClient<C> {
    inner: C,
}

impl<C> LocalCommitClient<C> {
    /// The committer.
    pub closed spec fn holds(&self) -> C {
        self.inner
    }

    pub fn new(inner: C) -> (r: Self)
        ensures
            r.holds() == inner,
    {
        LocalCommitClient { inner }
    }

    /// Access the underlying committer for operations that are specific to
    /// the Primary (bootstrap, etc.).
    pub fn committer(&self) -> (r: &C)
        ensures
            *r == self.holds(),
    {
        &self.inner
    }
}

/// The client of a node that only reads: it refuses every commit.
#[derive(Clone, Copy, Debug, PartialEq, Eq, Structural)]
pub struct ReadOnlyCommitClient;

impl ReadOnlyCommitClient {
    /// The error for every commit.
    pub fn commit_error(&self) -> (r: String)
        ensures
            r@
                == "Cannot commit on a Replica node. Mutations must be forwarded to the Primary."@,
    {
        "Cannot commit on a Replica node. Mutations must be forwarded to the Primary.".to_owned()
    }

    /// The error for every request to load indexes.
    pub fn load_indexes_error(&self) -> (r: String)
        ensures
            r@ == "Cannot load indexes on a Replica node."@,
    {
        "Cannot load indexes on a Replica node.".to_owned()
    }
}

} // verus!
