//! The simulation's executor: observation oracle and crash injector.
//!
//! Every message that the processing pipeline executes is recorded with the
//! target actor and an identity tag. When armed, the next execution crashes
//! instead, and only that one.
//!
//! Only application messages (`Custom` payloads of eight little-endian bytes)
//! carry an identity; anything else is recorded as [`ExecTag::System`].
use crate::bytes::{law_word_value, le_value, word_from_bytes};
use crate::error::Result;
use crate::executor::{ActorExecutor, ExecutionResult};
use crate::{ActorId, Message, MessagePayload, MessageView, PayloadView};
use vstd::prelude::*;

verus! {

/// Text of every injected crash, so that observers can tell injected crashes
/// from real ones.
pub const SIM_CRASH_MESSAGE: &'static str = "actor-kit-sim: injected actor crash";

/// Identity tag recorded for one processed message.
#[derive(Debug, Clone, Copy, PartialEq, Eq, Structural)]
pub enum ExecTag {
    /// Application message with the given identity.
    Custom(u64),
    /// System message (`Start`/`Stop`/`Signal`/other shapes).
    System,
}

/// One observed processing event.
#[derive(Debug, Clone, Copy, PartialEq, Eq, Structural)]
pub struct ExecRecord {
    /// Actor the message was delivered to.
    pub actor: ActorId,
    /// Identity tag of the processed message.
    pub tag: ExecTag,
}

/// An injected crash.
#[derive(Debug, Clone, Copy, PartialEq, Eq, Structural)]
pub struct InjectedCrash;

/// The identity tag of a payload.
pub open spec fn tag_of(payload: PayloadView) -> ExecTag {
    match payload {
        PayloadView::Custom(bytes) => if bytes.len() == 8 {
            ExecTag::Custom(le_value(bytes) as u64)
        } else {
            ExecTag::System
        },
        _ => ExecTag::System,
    }
}

/// The record of an executed message.
pub open spec fn record_of(actor: ActorId, message: MessageView) -> ExecRecord {
    ExecRecord { actor, tag: tag_of(message.payload) }
}

/// Observation and crash-injection executor.
pub struct SimExecutor {
    crash_next: bool,
    records: Vec<ExecRecord>,
}

impl View for SimExecutor {
    type V = Seq<ExecRecord>;

    /// The records not drained yet, oldest first.
    closed spec fn view(&self) -> Seq<ExecRecord> {
        self.records@
    }
}

impl SimExecutor {
    /// Whether the next execution crashes.
    pub closed spec fn armed(self) -> bool {
        self.crash_next
    }

    /// Create a disarmed executor.
    pub fn new() -> (r: Self)
        ensures
            !r.armed(),
            r@ == Seq::<ExecRecord>::empty(),
    {
        SimExecutor { crash_next: false, records: Vec::new() }
    }

    /// Arm (or disarm) a crash on the next execution.
    pub fn arm_crash(&mut self, crash: bool)
        ensures
            final(self).armed() == crash,
            final(self)@ == old(self)@,
    {
        self.crash_next = crash;
    }

    /// Drain all records observed so far.
    pub fn drain_records(&mut self) -> (r: Vec<ExecRecord>)
        ensures
            r@ == old(self)@,
            final(self)@ == Seq::<ExecRecord>::empty(),
            final(self).armed() == old(self).armed(),
    {
        let mut taken: Vec<ExecRecord> = Vec::new();
        std::mem::swap(&mut taken, &mut self.records);
        taken
    }

    /// Number of records observed and not drained yet.
    pub fn record_count(&self) -> (r: usize)
        ensures
            r == self@.len(),
    {
        self.records.len()
    }

    /// Execute a message: record it, or crash when armed. A crash disarms.
    pub fn try_execute(&mut self, actor_id: &ActorId, message: &Message) -> (r: std::result::Result<
        ExecutionResult,
        InjectedCrash,
    >)
        ensures
            r is Err <==> old(self).armed(),
            !final(self).armed(),
            r is Err ==> final(self)@ == old(self)@,
            r matches Ok(x) ==> x.is_plain_success() && final(self)@ == old(self)@.push(
                record_of(*actor_id, message@),
            ),
    {
        if self.crash_next {
            self.crash_next = false;
            return Err(InjectedCrash);
        }
        let tag: ExecTag = match &message.payload {
            MessagePayload::Custom(bytes) => {
                if bytes.len() == 8 {
                    ExecTag::Custom(word_from_bytes(bytes))
                } else {
                    ExecTag::System
                }
            },
            _ => ExecTag::System,
        };
        self.records.push(ExecRecord { actor: *actor_id, tag });
        Ok(ExecutionResult::Success { fuel_consumed: 0, response: None })
    }
}

impl Default for SimExecutor {
    fn default() -> (r: Self)
        ensures
            !r.armed(),
            r@ == Seq::<ExecRecord>::empty(),
    {
        Self::new()
    }
}

impl ActorExecutor for SimExecutor {
    open spec fn steady(&self) -> bool {
        !self.armed()
    }

    fn execute(&mut self, actor_id: &ActorId, message: &Message) -> (r: ExecutionResult)
        ensures
            r.is_plain_success(),
            !final(self).armed(),
            final(self)@ == old(self)@.push(record_of(*actor_id, message@)),
    {
        match self.try_execute(actor_id, message) {
            Ok(result) => result,
            Err(_) => ExecutionResult::NotReady,
        }
    }

    fn is_ready(&self, _actor_id: &ActorId) -> (r: bool)
        ensures
            r,
    {
        true
    }

    fn get_fuel(&self, _actor_id: &ActorId) -> (r: Option<u64>)
        ensures
            r == Some(u64::MAX),
    {
        Some(u64::MAX)
    }

    fn reset(&mut self, _actor_id: &ActorId) -> (r: Result<()>)
        ensures
            r is Ok,
            *final(self) == *old(self),
    {
        Ok(())
    }
}

/// What executing a message is recorded as: its actor, and the number that its
/// payload stands for where that is eight bytes of application data, the least
/// significant first; anything else is a system message.
pub proof fn law_records(actor: ActorId, message: MessageView)
    ensures
        record_of(actor, message).actor == actor,
        match message.payload {
            PayloadView::Custom(s) => if s.len() == 8 {
                record_of(actor, message).tag matches ExecTag::Custom(mid) && mid == s[0] + 0x100
                    * s[1] + 0x1_0000 * s[2] + 0x100_0000 * s[3] + 0x1_0000_0000 * s[4]
                    + 0x100_0000_0000 * s[5] + 0x1_0000_0000_0000 * s[6] + 0x100_0000_0000_0000
                    * s[7]
            } else {
                record_of(actor, message).tag is System
            },
            _ => record_of(actor, message).tag is System,
        },
{
    if let PayloadView::Custom(s) = message.payload {
        if s.len() == 8 {
            law_word_value(s);
        }
    }
}

/// The text of an injected crash.
pub proof fn law_crash_text()
    ensures
        SIM_CRASH_MESSAGE@ == "actor-kit-sim: injected actor crash"@,
{
}

} // verus!
