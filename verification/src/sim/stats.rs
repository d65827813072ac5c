//! Counters and results of a simulation run.
use crate::sim::world::StatsView;
use vstd::prelude::*;

verus! {

/// Aggregate counters for a simulation run.
#[derive(Debug, Clone, Copy, PartialEq, Eq, Structural)]
pub struct SimStats {
    /// Workload messages injected.
    pub injected: u64,
    /// Sends rejected by fault or dead target (message-level).
    pub rejected: u64,
    /// Deliveries accepted into a mailbox (duplicates included).
    pub delivered: u64,
    /// Application messages the runtime processed.
    pub processed: u64,
    /// Injected mid-message crashes.
    pub crashed: u64,
    /// Supervised restarts granted.
    pub restarted: u64,
    /// Actors permanently killed after escalation.
    pub escalated: u64,
    /// Lost artifacts: crash-drained mailbox copies.
    pub dropped: u64,
    /// Deliveries parked on a full mailbox (events, including retries).
    pub blocked: u64,
    /// Deliveries that succeeded after having been parked at least once.
    pub unblocked: u64,
    /// Delayed deliveries that landed.
    pub delayed: u64,
    /// Duplicate copies delivered.
    pub duplicates: u64,
    /// System (`Start`) messages processed.
    pub system_processed: u64,
}

impl View for SimStats {
    type V = StatsView;

    open spec fn view(&self) -> StatsView {
        StatsView {
            injected: self.injected as int,
            rejected: self.rejected as int,
            delivered: self.delivered as int,
            processed: self.processed as int,
            crashed: self.crashed as int,
            restarted: self.restarted as int,
            escalated: self.escalated as int,
            dropped: self.dropped as int,
            blocked: self.blocked as int,
            unblocked: self.unblocked as int,
            delayed: self.delayed as int,
            duplicates: self.duplicates as int,
            system_processed: self.system_processed as int,
        }
    }
}

impl Default for SimStats {
    fn default() -> (r: Self)
        ensures
            r@ == StatsView::zero(),
    {
        SimStats {
            injected: 0,
            rejected: 0,
            delivered: 0,
            processed: 0,
            crashed: 0,
            restarted: 0,
            escalated: 0,
            dropped: 0,
            blocked: 0,
            unblocked: 0,
            delayed: 0,
            duplicates: 0,
            system_processed: 0,
        }
    }
}

/// Result of a simulation run.
#[derive(Debug, Clone, Copy)]
pub struct SimOutcome {
    /// Seed the run was built from.
    pub seed: u64,
    /// True when the world drained: no pending mail, mailboxes empty.
    pub quiesced: bool,
    /// Scheduling rounds executed.
    pub steps: u64,
    /// FNV-1a hash of the full operation trace — the determinism witness.
    pub trace_hash: u64,
    /// Number of trace operations.
    pub trace_ops: usize,
    /// Aggregate counters.
    pub stats: SimStats,
}

} // verus!
