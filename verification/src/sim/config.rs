//! Workload and world configuration of a simulation.
use crate::mailbox::MailboxConfig;
use crate::sim::faults::{FaultConfig, Probability};
use crate::sim::scheduler::SchedulingPolicy;
use vstd::prelude::*;

verus! {

/// Workload injection rate, in events per simulated tick.
#[derive(Debug, Clone, Copy, PartialEq, Eq, Structural)]
pub struct InjectionRate {
    /// Events injected every tick.
    pub whole: u64,
    /// Probability of one more.
    pub fraction: Probability,
}

/// Workload + world configuration for a simulation run.
#[derive(Debug, Clone, Copy)]
pub struct SimConfig {
    /// Number of actors spawned (each supervised, `Permanent` restarts).
    pub actors: u64,
    /// Application messages the workload injects (identities `0..messages`).
    pub messages: u64,
    /// Mailbox config for every actor (small capacities exercise
    /// backpressure; default 64).
    pub mailbox: MailboxConfig,
    /// Task-selection policy (the modeled scheduler).
    pub policy: SchedulingPolicy,
    /// Fault injection schedule.
    pub faults: FaultConfig,
    /// Restarts that the supervisor grants each actor. `0` means unlimited.
    pub max_restarts: u32,
    /// Workload injection rate.
    pub injection_rate: InjectionRate,
    /// Task-processing draws per tick (scheduling decisions per round).
    pub processing_per_tick: u64,
    /// Blocked-delivery retries per tick (round-robin rotation).
    pub blocked_retries_per_tick: u64,
}

impl SimConfig {
    /// The configuration of a run that does not say otherwise.
    pub open spec fn standard() -> SimConfig {
        SimConfig {
            actors: 4,
            messages: 256,
            mailbox: MailboxConfig {
                capacity: 64,
                priority_queue: true,
                backpressure_threshold: 800,
            },
            policy: SchedulingPolicy::Random,
            faults: FaultConfig::none(),
            max_restarts: 3,
            injection_rate: InjectionRate { whole: 4, fraction: Probability::Never },
            processing_per_tick: 4,
            blocked_retries_per_tick: 64,
        }
    }
}

impl Default for SimConfig {
    fn default() -> (r: Self)
        ensures
            r == SimConfig::standard(),
    {
        SimConfig {
            actors: 4,
            messages: 256,
            mailbox: MailboxConfig {
                capacity: 64,
                priority_queue: true,
                backpressure_threshold: 800,
            },
            policy: SchedulingPolicy::Random,
            faults: FaultConfig::default(),
            max_restarts: 3,
            injection_rate: InjectionRate { whole: 4, fraction: Probability::Never },
            processing_per_tick: 4,
            blocked_retries_per_tick: 64,
        }
    }
}

/// The configuration of a run that does not say otherwise.
pub proof fn law_standard_config()
    ensures
        ({
            let c = SimConfig::standard();
            &&& c.actors == 4
            &&& c.messages == 256
            &&& c.mailbox.capacity == 64
            &&& c.mailbox.priority_queue
            &&& c.mailbox.backpressure_threshold == 800
            &&& c.policy == SchedulingPolicy::Random
            &&& c.faults.fault_free()
            &&& c.faults.delay_ticks_min == 1
            &&& c.faults.delay_ticks_max == 8
            &&& c.max_restarts == 3
            &&& c.injection_rate.whole == 4
            &&& c.injection_rate.fraction == Probability::Never
            &&& c.processing_per_tick == 4
            &&& c.blocked_retries_per_tick == 64
        }),
{
}

} // verus!
