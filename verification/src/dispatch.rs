//! Fan-out of one built notification to every configured endpoint.
//!
//! Delivery itself is one network send per endpoint, performed concurrently
//! by the caller; this module fixes what those sends are — exactly one
//! attempt per configured endpoint, independent of any other endpoint's
//! outcome — and accounts for the results. Failures are counted, never
//! retried, and never propagate: once a group is flushed it stays flushed
//! whatever the endpoints answer.

use vstd::prelude::*;

use crate::embed::Embed;

verus! {

/// One planned delivery: a single attempt of one notification at one
/// endpoint.
#[derive(Debug)]
pub struct DeliveryJob {
    pub url: String,
    pub notification: Embed,
}

/// Plan the fan-out of one notification: one job per configured endpoint,
/// in configuration order, each carrying the same notification. No
/// endpoint is skipped and none is attempted twice.
pub fn fanout_jobs(notification: &Embed, urls: &Vec<String>) -> (jobs: Vec<DeliveryJob>)
    ensures
        jobs@.len() == urls@.len(),
        forall|i: int|
            0 <= i < jobs@.len() ==> (#[trigger] jobs@[i]).url@ == urls@[i]@ && jobs@[
                i
            ].notification.congruent(*notification),
{
    let mut jobs: Vec<DeliveryJob> = Vec::new();
    let mut i: usize = 0;
    while i < urls.len()
        invariant
            i <= urls@.len(),
            jobs@.len() == i,
            forall|j: int|
                0 <= j < i ==> (#[trigger] jobs@[j]).url@ == urls@[j]@ && jobs@[
                    j
                ].notification.congruent(*notification),
        decreases urls@.len() - i,
    {
        jobs.push(DeliveryJob { url: urls[i].clone(), notification: notification.clone() });
        i = i + 1;
    }
    jobs
}

/// How many of the given per-endpoint outcomes failed.
pub open spec fn failure_count(outcomes: Seq<bool>) -> int
    decreases outcomes.len(),
{
    if outcomes.len() == 0 {
        0
    } else {
        failure_count(outcomes.drop_first()) + (if outcomes[0] {
            0int
        } else {
            1int
        })
    }
}

proof fn lemma_failure_count_push(outcomes: Seq<bool>, b: bool)
    ensures
        failure_count(outcomes.push(b)) == failure_count(outcomes) + (if b {
            0int
        } else {
            1int
        }),
    decreases outcomes.len(),
{
    if outcomes.len() == 0 {
        assert(outcomes.push(b).drop_first() =~= Seq::<bool>::empty());
        assert(failure_count(Seq::<bool>::empty()) == 0);
    } else {
        assert(outcomes.push(b).drop_first() =~= outcomes.drop_first().push(b));
        lemma_failure_count_push(outcomes.drop_first(), b);
    }
}

/// The accounting for one flushed group's delivery cycle.
#[derive(Debug, Clone, Copy, PartialEq, Eq, Structural)]
pub struct FanoutReport {
    /// How many endpoints were attempted.
    pub attempted: usize,
    /// How many attempts failed.
    pub failed: usize,
}

/// Account for one delivery cycle: every endpoint was attempted once, and
/// failures are tallied without affecting anything else — the group counts
/// as handled whatever the outcomes were.
pub fn tally_outcomes(outcomes: &Vec<bool>) -> (r: FanoutReport)
    ensures
        r.attempted == outcomes@.len(),
        r.failed == failure_count(outcomes@),
{
    let mut failed: usize = 0;
    let mut i: usize = 0;
    proof {
        assert(outcomes@.take(0) =~= Seq::<bool>::empty());
    }
    while i < outcomes.len()
        invariant
            i <= outcomes@.len(),
            failed <= i,
            failed == failure_count(outcomes@.take(i as int)),
        decreases outcomes@.len() - i,
    {
        proof {
            assert(outcomes@.take(i + 1) =~= outcomes@.take(i as int).push(outcomes@[i as int]));
            lemma_failure_count_push(outcomes@.take(i as int), outcomes@[i as int]);
        }
        if !outcomes[i] {
            failed = failed + 1;
        }
        i = i + 1;
    }
    proof {
        assert(outcomes@.take(outcomes@.len() as int) =~= outcomes@);
    }
    FanoutReport { attempted: outcomes.len(), failed }
}

/// Whether an HTTP status code reports success: the 2xx class. A delivery
/// whose response falls outside it counts as failed.
pub fn is_success_status(code: u16) -> (r: bool)
    ensures
        r == (200 <= code < 300),
{
    200 <= code && code < 300
}

} // verus!
