//! The batch scan scheduler.
//!
//! One run: narrow the pool by ports, shuffle it, then hand out consecutive
//! batches of at most `batch_size` candidates. The goal is checked only
//! between batches: a batch in progress always runs to completion, and every
//! non-empty outcome it produced is recorded, even past the goal.

use vstd::prelude::*;

use rand::seq::SliceRandom;

use crate::filter::filter_by_port;
use crate::filter::narrow_all;
use crate::relay::ProbeOutcome;
use crate::relay::Relay;

verus! {

/// The outcomes whose probe found at least one reachable address, in the
/// order given.
pub open spec fn with_reachable(outcomes: Seq<ProbeOutcome>) -> Seq<ProbeOutcome>
    decreases outcomes.len(),
{
    if outcomes.len() == 0 {
        seq![]
    } else {
        let rest = with_reachable(outcomes.drop_last());
        if outcomes.last().reachable@.len() > 0 {
            rest.push(outcomes.last())
        } else {
            rest
        }
    }
}

/// Everything the scheduler ever records came from the given outcomes and
/// found at least one reachable address: the sink is handed non-empty
/// outcomes only.
pub proof fn lemma_with_reachable_nonempty(outcomes: Seq<ProbeOutcome>, k: int)
    requires
        0 <= k < with_reachable(outcomes).len(),
    ensures
        with_reachable(outcomes)[k].reachable@.len() > 0,
        outcomes.contains(with_reachable(outcomes)[k]),
    decreases outcomes.len(),
{
    if outcomes.len() > 0 {
        let rest = with_reachable(outcomes.drop_last());
        if outcomes.last().reachable@.len() > 0 && k == rest.len() {
            assert(outcomes[outcomes.len() - 1] == with_reachable(outcomes)[k]);
        } else {
            lemma_with_reachable_nonempty(outcomes.drop_last(), k);
            let x = with_reachable(outcomes.drop_last())[k];
            let i = choose|i: int|
                0 <= i < outcomes.drop_last().len() && outcomes.drop_last()[i] == x;
            assert(outcomes[i] == x);
        }
    }
}

/// Relies on rand's `SliceRandom::shuffle` with `rand::rng`: an in-place,
/// uniformly chosen permutation of the slice. Only the order changes, so
/// the elements as a multiset stay the same.
#[verifier::external_body]
fn shuffle_relays(pool: &mut Vec<Relay>)
    ensures
        final(pool)@.len() == old(pool)@.len(),
        final(pool)@.to_multiset() == old(pool)@.to_multiset(),
        final(pool).deep_view().to_multiset() == old(pool).deep_view().to_multiset(),
{
    pool.shuffle(&mut rand::rng());
}

/// Narrows the pool by the port allow-list, then shuffles it uniformly, so
/// that an early-met goal does not bias which part of a large pool is ever
/// probed. The result holds exactly the narrowed candidates, reordered.
pub fn prepare_pool(relays: Vec<Relay>, ports: &Vec<u16>) -> (r: Vec<Relay>)
    ensures
        ports@.len() == 0 ==> r.deep_view().to_multiset() == relays.deep_view().to_multiset(),
        ports@.len() > 0 ==> r.deep_view().to_multiset() == narrow_all(
            relays.deep_view(),
            ports@,
        ).to_multiset(),
{
    let mut pool = filter_by_port(&relays, ports);
    shuffle_relays(&mut pool);
    pool
}

/// One run's state, owned by the scheduler alone and changed only at the
/// sequential points between batches.
pub struct ScanScheduler {
    /// Candidates not yet handed out, in scan order.
    pub pending: Vec<Relay>,
    /// Outcomes recorded so far, all with a non-empty reachable set.
    pub found: Vec<ProbeOutcome>,
    /// The scan stops early once this many candidates were found reachable.
    pub goal: usize,
    /// Batch size, and with it the bound on in-flight probes per batch.
    pub batch_size: usize,
}

impl ScanScheduler {
    pub open spec fn wf(&self) -> bool {
        self.batch_size >= 1
    }

    pub fn new(pool: Vec<Relay>, goal: usize, batch_size: usize) -> (s: Self)
        requires
            batch_size >= 1,
        ensures
            s.wf(),
            s.pending == pool,
            s.found@ == Seq::<ProbeOutcome>::empty(),
            s.goal == goal,
            s.batch_size == batch_size,
    {
        let s = ScanScheduler { pending: pool, found: Vec::new(), goal, batch_size };
        proof {
            assert(s.found@ =~= Seq::<ProbeOutcome>::empty());
        }
        s
    }

    /// Hands out the next batch: the first `batch_size` pending candidates
    /// (fewer when the pool is shorter), in order. Once the goal is met, or
    /// the pool is exhausted, no further batch is started.
    pub fn next_batch(&mut self) -> (b: Option<Vec<Relay>>)
        requires
            old(self).wf(),
        ensures
            final(self).wf(),
            final(self).goal == old(self).goal,
            final(self).batch_size == old(self).batch_size,
            final(self).found == old(self).found,
            old(self).found@.len() >= old(self).goal ==> b is None && final(self).pending == old(
                self,
            ).pending,
            old(self).found@.len() < old(self).goal && old(self).pending@.len() == 0 ==> b is None
                && final(self).pending == old(self).pending,
            old(self).found@.len() < old(self).goal && old(self).pending@.len() > 0 ==> (b matches
                Some(batch) && {
                let k = if old(self).batch_size < old(self).pending@.len() {
                    old(self).batch_size as int
                } else {
                    old(self).pending@.len() as int
                };
                &&& batch@ == old(self).pending@.subrange(0, k)
                &&& final(self).pending@ == old(self).pending@.subrange(
                    k,
                    old(self).pending@.len() as int,
                )
                &&& 0 < batch@.len() <= old(self).batch_size
            }),
    {
        if self.found.len() >= self.goal {
            return None;
        }
        if self.pending.is_empty() {
            return None;
        }
        let k = if self.batch_size < self.pending.len() {
            self.batch_size
        } else {
            self.pending.len()
        };
        let tail = self.pending.split_off(k);
        let mut batch = tail;
        core::mem::swap(&mut self.pending, &mut batch);
        Some(batch)
    }

    /// Records a completed batch: every outcome with at least one reachable
    /// address is appended, in the order given, even when the goal was
    /// already met mid-batch.
    pub fn record_outcomes(&mut self, outcomes: Vec<ProbeOutcome>)
        ensures
            final(self).wf() == old(self).wf(),
            final(self).goal == old(self).goal,
            final(self).batch_size == old(self).batch_size,
            final(self).pending == old(self).pending,
            final(self).found@ == old(self).found@ + with_reachable(outcomes@),
    {
        let ghost all = outcomes@;
        let n = outcomes.len();
        let mut rest = outcomes;
        let mut i: usize = 0;
        while i < n
            invariant
                n == all.len(),
                i <= n,
                rest@ =~= all.subrange(i as int, n as int),
                self.found@ == old(self).found@ + with_reachable(all.subrange(0, i as int)),
                self.pending == old(self).pending,
                self.goal == old(self).goal,
                self.batch_size == old(self).batch_size,
            decreases n - i,
        {
            let outcome = rest.remove(0);
            proof {
                assert(all.subrange(i as int, n as int)[0] == all[i as int]);
                assert(outcome == all[i as int]);
                assert(rest@ =~= all.subrange(i + 1, n as int));
                assert(all.subrange(0, i + 1).drop_last() =~= all.subrange(0, i as int));
                assert(all.subrange(0, i + 1).last() == all[i as int]);
            }
            if has_reachable(&outcome) {
                self.found.push(outcome);
            }
            proof {
                assert(self.found@ =~= old(self).found@ + with_reachable(all.subrange(0, i + 1)));
            }
            i = i + 1;
        }
        proof {
            assert(all.subrange(0, n as int) =~= all);
        }
    }

    /// How many reachable candidates were recorded so far.
    pub fn found_count(&self) -> (r: usize)
        ensures
            r == self.found@.len(),
    {
        self.found.len()
    }

    /// Whether the goal count has been reached.
    pub fn goal_met(&self) -> (r: bool)
        ensures
            r == (self.found@.len() >= self.goal),
    {
        self.found.len() >= self.goal
    }

    /// Ends the run, yielding everything recorded.
    pub fn into_outcomes(self) -> (r: Vec<ProbeOutcome>)
        ensures
            r == self.found,
    {
        self.found
    }
}

/// Whether the probe of this outcome reached at least one address.
fn has_reachable(outcome: &ProbeOutcome) -> (r: bool)
    ensures
        r == (outcome.reachable@.len() > 0),
{
    outcome.reachable.len() > 0
}

} // verus!
