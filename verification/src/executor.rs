//! Actor executor abstraction.
//!
//! The interface through which actor messages run on pluggable backends
//! (native handlers, hosted code, test doubles).
use crate::error::Result;
use crate::{ActorId, Message};
use vstd::prelude::*;

verus! {

/// Result of executing an actor task.
#[derive(Debug)]
pub enum ExecutionResult {
    /// Execution completed successfully
    Success {
        /// Fuel consumed during execution
        fuel_consumed: u64,
        /// Optional response payload
        response: Option<Vec<u8>>,
    },
    /// Execution ran out of fuel
    FuelExhausted {
        /// Fuel that was attempted to be consumed
        requested: u64,
    },
    /// Execution failed with an error
    Failed {
        /// Error message
        error: String,
    },
    /// Actor not found or not initialized
    NotReady,
}

impl ExecutionResult {
    /// Whether execution succeeded at no cost and without a response.
    pub open spec fn is_plain_success(self) -> bool {
        self matches ExecutionResult::Success { fuel_consumed, response } && fuel_consumed == 0
            && response is None
    }
}

/// Trait for executing actor messages.
pub trait ActorExecutor: Send + Sync {
    /// Whether executing a message now does not crash.
    spec fn steady(&self) -> bool;

    /// Execute a message for an actor.
    fn execute(&mut self, actor_id: &ActorId, message: &Message) -> (r: ExecutionResult)
        requires
            old(self).steady(),
    ;

    /// Check if an actor is ready to execute.
    fn is_ready(&self, actor_id: &ActorId) -> (r: bool);

    /// Get the fuel consumption for an actor.
    fn get_fuel(&self, actor_id: &ActorId) -> (r: Option<u64>);

    /// Reset an actor's execution state.
    fn reset(&mut self, actor_id: &ActorId) -> (r: Result<()>);
}

/// Null executor for testing.
///
/// Does nothing but track calls.
pub struct NullExecutor {
    call_count: u64,
}

/// Fuel that the null executor reports for every actor.
pub const NULL_FUEL: u64 = 1_000_000;

impl View for NullExecutor {
    type V = u64;

    closed spec fn view(&self) -> u64 {
        self.call_count
    }
}

impl NullExecutor {
    /// Create a new null executor.
    pub fn new() -> (r: Self)
        ensures
            r@ == 0,
    {
        NullExecutor { call_count: 0 }
    }

    /// Get the number of calls made.
    pub fn call_count(&self) -> (r: u64)
        ensures
            r == self@,
    {
        self.call_count
    }
}

impl Default for NullExecutor {
    fn default() -> (r: Self)
        ensures
            r@ == 0,
    {
        Self::new()
    }
}

impl ActorExecutor for NullExecutor {
    open spec fn steady(&self) -> bool {
        true
    }

    fn execute(&mut self, _actor_id: &ActorId, _message: &Message) -> (r: ExecutionResult)
        ensures
            r.is_plain_success(),
            final(self)@ == (if old(self)@ == u64::MAX {
                0
            } else {
                old(self)@ + 1
            }),
    {
        self.call_count = self.call_count.wrapping_add(1);
        ExecutionResult::Success { fuel_consumed: 0, response: None }
    }

    fn is_ready(&self, _actor_id: &ActorId) -> (r: bool)
        ensures
            r,
    {
        true
    }

    fn get_fuel(&self, _actor_id: &ActorId) -> (r: Option<u64>)
        ensures
            r == Some(NULL_FUEL),
    {
        Some(NULL_FUEL)
    }

    fn reset(&mut self, _actor_id: &ActorId) -> (r: Result<()>)
        ensures
            r is Ok,
            *final(self) == *old(self),
    {
        Ok(())
    }
}

/// A plain success is one that took no fuel and has no response, and nothing
/// else is.
pub proof fn law_plain_success(r: ExecutionResult)
    ensures
        r.is_plain_success() == match r {
            ExecutionResult::Success { fuel_consumed, response } => fuel_consumed == 0
                && response is None,
            _ => false,
        },
        NULL_FUEL == 1_000_000,
{
}

} // verus!
