//! The pace of a replica's catch-up: what one pass achieved, when a cold
//! replica may serve, and when to go round again.
use vstd::prelude::*;
use crate::replication::follower::ReplicaFollower;
use crate::replication::pending::{lists_syncs, no_syncs, PendingSync};
use crate::replication::status::{passed, Following, ReplicaStatus};
use crate::replication::sync::SyncOutcome;

verus! {

/// Failed passes in a row after which a catch-up has stopped making progress.
pub const CATCH_UP_STALLED_AFTER: u32 = 2;

/// What one pass over the pending repositories achieved.
#[derive(Debug, Clone, Copy, PartialEq, Eq, Structural)]
pub struct SyncPass {
    pub attempted: usize,
    pub succeeded: usize,
    /// Repositories that wait for an operator: neither progress nor failure.
    pub locked: usize,
}

/// What the worker does after a pass.
#[derive(Debug, Clone, Copy, PartialEq, Eq, Structural)]
pub enum NextStep {
    /// Start the next pass at once.
    Again,
    /// Pause, then wait for a notification or the next poll.
    BackOff,
    /// Wait for a notification or the next poll.
    Wait,
}

/// How many outcomes are the given one.
pub open spec fn outcome_count(outcomes: Seq<SyncOutcome>, outcome: SyncOutcome) -> nat {
    outcomes.filter(|each: SyncOutcome| each == outcome).len()
}

impl SyncPass {
    /// A pass with the given outcomes, one for each repository that was
    /// attempted.
    pub fn of(outcomes: &[SyncOutcome]) -> (result: Self)
        ensures
            result.attempted == outcomes@.len(),
            result.succeeded == outcome_count(outcomes@, SyncOutcome::Synced),
            result.locked == outcome_count(outcomes@, SyncOutcome::Locked),
    {
        let mut succeeded: usize = 0;
        let mut locked: usize = 0;
        let mut i: usize = 0;
        proof {
            reveal(Seq::filter);
        }
        while i < outcomes.len()
            invariant
                i <= outcomes.len(),
                succeeded == outcome_count(outcomes@.take(i as int), SyncOutcome::Synced),
                locked == outcome_count(outcomes@.take(i as int), SyncOutcome::Locked),
                succeeded <= i,
                locked <= i,
            decreases outcomes.len() - i,
        {
            proof {
                reveal(Seq::filter);
                assert(outcomes@.take(i + 1).drop_last() =~= outcomes@.take(i as int));
            }
            match outcomes[i] {
                SyncOutcome::Synced => {
                    succeeded = succeeded + 1;
                },
                SyncOutcome::Locked => {
                    locked = locked + 1;
                },
                SyncOutcome::Failed => {},
            }
            i = i + 1;
        }
        assert(outcomes@.take(i as int) =~= outcomes@);
        SyncPass { attempted: outcomes.len(), succeeded, locked }
    }

    /// Whether something was tried that does not wait for an operator, and
    /// nothing landed.
    pub open spec fn is_stalled(self) -> bool {
        self.attempted > self.locked && self.succeeded == 0
    }
}

/// The worker of a replica.
#[derive(Debug)]
pub struct FollowerWorker {
    /// Whether the listing has been compared since this process started.
    pub reconciled_once: bool,
    /// Passes in a row that failed.
    pub stalled_passes: u32,
    /// Repositories that this process has landed.
    pub landed_total: usize,
}

/// One more failed pass, as far as it can be counted.
pub open spec fn stalled_after(passes: u32, stalled: bool) -> u32 {
    if !stalled {
        0
    } else if passes == u32::MAX {
        passes
    } else {
        (passes + 1) as u32
    }
}

/// Repositories landed in all, as far as they can be counted.
pub open spec fn landed_after(total: usize, landed: usize) -> usize {
    if total + landed > usize::MAX {
        usize::MAX
    } else {
        (total + landed) as usize
    }
}

/// Whether a cold replica may serve: once it has caught up with a listing that
/// it has seen, or once its catch-up has stopped making progress after it
/// landed something.
pub open spec fn may_serve(
    reconciled_once: bool,
    nothing_pending: bool,
    stalled_passes: u32,
    landed_total: usize,
) -> bool {
    reconciled_once && (nothing_pending || (stalled_passes >= CATCH_UP_STALLED_AFTER && landed_total
        > 0))
}

/// What the worker does after a pass: only progress is a reason to start the
/// next one at once.
pub open spec fn next_step(pass: SyncPass, nothing_pending: bool) -> NextStep {
    if pass.succeeded > 0 && !nothing_pending {
        NextStep::Again
    } else if pass.is_stalled() {
        NextStep::BackOff
    } else {
        NextStep::Wait
    }
}

impl FollowerWorker {
    /// Starts the worker. A replica that already holds repositories serves
    /// from the start.
    pub fn start(holds_repositories: bool, status: &mut ReplicaStatus) -> (result: Self)
        ensures
            !result.reconciled_once,
            result.stalled_passes == 0,
            result.landed_total == 0,
            final(status)@ == (Following {
                bootstrapped: holds_repositories || old(status)@.bootstrapped,
                ..old(status)@
            }),
    {
        if holds_repositories {
            status.mark_bootstrapped();
        }
        FollowerWorker { reconciled_once: false, stalled_passes: 0, landed_total: 0 }
    }

    /// Takes up how a comparison with the master's listing ended. One that
    /// failed is asked for again.
    pub fn reconcile_ended(
        &mut self,
        outcome: Result<(), String>,
        follower: &mut ReplicaFollower,
        status: &mut ReplicaStatus,
    )
        ensures
            final(self).stalled_passes == old(self).stalled_passes,
            final(self).landed_total == old(self).landed_total,
            final(self).reconciled_once == (outcome is Ok || old(self).reconciled_once),
            final(follower).is_same_node(old(follower)),
            final(follower).pending == old(follower).pending,
            final(follower).full_reconcile_requested == (outcome is Err || old(
                follower,
            ).full_reconcile_requested),
            final(status)@ == match outcome {
                Ok(()) => old(status)@,
                Err(error) => Following { master_error: Some(error@), ..old(status)@ },
            },
    {
        match outcome {
            Ok(()) => {
                self.reconciled_once = true;
            },
            Err(error) => {
                status.record_master_error(error);
                follower.request_full_reconcile();
            },
        }
    }

    /// Takes up how a pass ended, and says what to do next.
    pub fn after_pass(
        &mut self,
        pass: SyncPass,
        reconcile_failed: bool,
        follower: &ReplicaFollower,
        status: &mut ReplicaStatus,
        now: i64,
    ) -> (result: NextStep)
        ensures
            final(self).reconciled_once == old(self).reconciled_once,
            final(self).landed_total == landed_after(old(self).landed_total, pass.succeeded),
            final(self).stalled_passes == stalled_after(
                old(self).stalled_passes,
                pass.is_stalled(),
            ),
            final(status)@ == (Following {
                bootstrapped: old(status)@.bootstrapped || may_serve(
                    old(self).reconciled_once,
                    follower.pending@ == no_syncs(),
                    final(self).stalled_passes,
                    final(self).landed_total,
                ),
                ..passed(old(status)@, reconcile_failed || pass.is_stalled(), now)
            }),
            result == next_step(pass, follower.pending@ == no_syncs()),
    {
        self.landed_total = if pass.succeeded > usize::MAX - self.landed_total {
            usize::MAX
        } else {
            self.landed_total + pass.succeeded
        };
        let drain_failed: bool = pass.attempted > pass.locked && pass.succeeded == 0;
        status.note_pass(reconcile_failed || drain_failed, now);
        self.stalled_passes = if !drain_failed {
            0
        } else if self.stalled_passes == u32::MAX {
            u32::MAX
        } else {
            self.stalled_passes + 1
        };
        let nothing_pending: bool = follower.pending.is_empty();
        if self.reconciled_once && !status.is_bootstrapped() && (nothing_pending || (
        self.stalled_passes >= CATCH_UP_STALLED_AFTER && self.landed_total > 0)) {
            status.mark_bootstrapped();
        }
        if pass.succeeded > 0 && !nothing_pending {
            NextStep::Again
        } else if drain_failed {
            NextStep::BackOff
        } else {
            NextStep::Wait
        }
    }
}

impl ReplicaFollower {
    /// The repositories that a pass is to sync, with their keys. Nothing is
    /// pulled from a master whose identity has not been verified; what is
    /// pending stays so.
    pub fn begin_pass(&self, status: &mut ReplicaStatus) -> (result: Vec<(String, PendingSync)>)
        ensures
            if old(status)@.identity_verified {
                &&& lists_syncs(result@, self.pending@)
                &&& final(status)@ == (Following { pending: result.len(), ..old(status)@ })
            } else {
                &&& result@.len() == 0
                &&& final(status)@ == old(status)@
            },
    {
        if !status.identity_verified() {
            return Vec::new();
        }
        let targets: Vec<(String, PendingSync)> = self.pending.targets();
        status.set_pending(targets.len());
        targets
    }

    /// Reports what a pass has left pending. A pass without targets changes
    /// nothing.
    pub fn end_pass(&self, status: &mut ReplicaStatus)
        ensures
            self.pending@.dom().finite(),
            final(status)@ == (Following {
                pending: self.pending@.dom().len() as usize,
                ..old(status)@
            }),
    {
        status.set_pending(self.pending.len());
    }
}

/// A replica that has landed nothing and still has something to look at does
/// not start to serve, however often its catch-up fails.
pub proof fn law_empty_replica_stays_closed(reconciled_once: bool, stalled_passes: u32)
    ensures
        !may_serve(reconciled_once, false, stalled_passes, 0),
{
}

/// A pass in which nothing landed is never followed by another one at once.
pub proof fn law_no_progress_no_spin(pass: SyncPass, nothing_pending: bool)
    requires
        pass.succeeded == 0,
    ensures
        next_step(pass, nothing_pending) != NextStep::Again,
{
}

/// Repositories that wait for an operator do not make a pass look stalled.
pub proof fn law_locked_is_no_failure(pass: SyncPass)
    requires
        pass.attempted == pass.locked,
    ensures
        !pass.is_stalled(),
        next_step(pass, true) == NextStep::Wait,
{
}

} // verus!
