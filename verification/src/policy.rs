//! Pluggable admission-control hook for spawns and message sends.
//!
//! Hosts that need quotas, memory budgets, or rate limiting implement
//! [`ResourcePolicy`]. The default policy is [`NoopPolicy`], which admits
//! everything.
use crate::error::Result;
use vstd::prelude::*;

verus! {

/// Admission control for actor spawns and message sends.
///
/// All methods have default implementations that admit everything, so
/// policies only need to override what they enforce.
pub trait ResourcePolicy: Send + Sync + 'static {
    /// Decide whether a new actor may be spawned.
    ///
    /// Return `Err(reason)` to reject the spawn.
    fn admit_actor(&self) -> (r: Result<()>)
        default_ensures
            r is Ok,
    {
        Ok(())
    }

    /// Notify the policy that an actor was killed/released.
    fn release_actor(&self) {
    }

    /// Decide whether a send of `count` messages may proceed.
    ///
    /// `count == 1` for single sends, `> 1` for batch sends.
    fn admit_message(&self, count: usize) -> (r: Result<()>)
        default_ensures
            r is Ok,
    {
        let _ = count;
        Ok(())
    }
}

/// The default policy: admit all spawns and sends.
#[derive(Debug, Clone, Copy, Default)]
pub struct NoopPolicy;

impl ResourcePolicy for NoopPolicy {
}

} // verus!
