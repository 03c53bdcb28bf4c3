//! The retry policy around the concatenation primitive.
//!
//! A task repeats the concatenation of its file list until it succeeds,
//! waiting a fixed delay between attempts; it never gives up. The decision
//! after each attempt is a pure function here; the caller performs the
//! attempt and the wait. Against any run of attempts that eventually
//! succeeds, the policy stops at exactly the first success.

use vstd::prelude::*;

verus! {

/// Seconds to wait between two attempts of one task.
pub struct RetryPolicy {
    /// The fixed delay before the next attempt, in seconds.
    pub delay_secs: u64,
}

/// What to do after one attempt of the concatenation primitive.
#[derive(Clone, Copy, Debug, PartialEq, Eq, Structural)]
pub enum RetryDecision {
    /// The attempt succeeded; the task is complete.
    Done,
    /// The attempt failed; try again after this many seconds.
    RetryAfter(u64),
}

/// Decides the next step from one attempt's outcome: stop on success,
/// otherwise retry after the policy's fixed delay. There is no attempt
/// limit and no backoff.
pub fn retry_decision(succeeded: bool, policy: &RetryPolicy) -> (d: RetryDecision)
    ensures
        d == if succeeded {
            RetryDecision::Done
        } else {
            RetryDecision::RetryAfter(policy.delay_secs)
        },
{
    if succeeded {
        RetryDecision::Done
    } else {
        RetryDecision::RetryAfter(policy.delay_secs)
    }
}

/// Runs the retry loop against a given run of attempt outcomes (`true`
/// for a success): the loop calls the primitive until the first success
/// and stops right there, after exactly that many attempts.
pub fn attempts_until_success(outcomes: &Vec<bool>, policy: &RetryPolicy) -> (n: usize)
    requires
        exists|j: int| 0 <= j < outcomes@.len() && outcomes@[j],
    ensures
        1 <= n <= outcomes@.len(),
        outcomes@[n - 1],
        forall|j: int| 0 <= j < n - 1 ==> !outcomes@[j],
{
    let len = outcomes.len();
    let mut i: usize = 0;
    loop
        invariant
            i < len,
            len == outcomes@.len(),
            forall|j: int| 0 <= j < i ==> !outcomes@[j],
            exists|j: int| i <= j < len && outcomes@[j],
        decreases len - i,
    {
        let d = retry_decision(outcomes[i], policy);
        match d {
            RetryDecision::Done => {
                return i + 1;
            },
            RetryDecision::RetryAfter(_) => {
                proof {
                    let j = choose|j: int| i <= j < len && outcomes@[j];
                    assert(j > i);
                }
                i = i + 1;
            },
        }
    }
}

} // verus!
