//! How often, and after which waits, an update that another node got ahead of
//! is tried again.

use vstd::prelude::*;

verus! {

/// How many times an update is tried.
pub const ATTEMPTS: u32 = 10;

/// The wait after the attempt, in milliseconds: it doubles each time.
pub open spec fn wait_after(attempt: u32) -> u64
    decreases attempt,
{
    if attempt == 0 {
        1
    } else {
        (2 * wait_after((attempt - 1) as u32)) as u64
    }
}

/// The wait after the attempt, in milliseconds.
pub fn wait_millis(attempt: u32) -> (r: u64)
    requires
        attempt < ATTEMPTS,
    ensures
        r == wait_after(attempt),
{
    let mut wait: u64 = 1;
    let mut i: u32 = 0;
    while i < attempt
        invariant
            i <= attempt < ATTEMPTS,
            wait == wait_after(i),
        decreases attempt - i,
    {
        proof {
            lemma_waits(i);
        }
        wait = wait * 2;
        i = i + 1;
    }
    wait
}

proof fn lemma_waits(attempt: u32)
    requires
        attempt < ATTEMPTS,
    ensures
        wait_after(attempt) <= 512,
{
    reveal_with_fuel(wait_after, 10);
}

/// The wait is a millisecond after the first attempt and doubles with each
/// further one.
pub proof fn waits_double(attempt: u32)
    requires
        attempt + 1 < ATTEMPTS,
    ensures
        ATTEMPTS == 10,
        attempt == 0 ==> wait_after(attempt) == 1,
        wait_after((attempt + 1) as u32) == 2 * wait_after(attempt),
        1 <= wait_after(attempt) <= 512,
    decreases attempt,
{
    reveal_with_fuel(wait_after, 11);
}

} // verus!
