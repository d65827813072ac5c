//! # actor-kit
//!
//! An actor runtime core with bounded mailboxes, supervised restarts and a
//! deterministic simulation of the whole.
pub mod bytes;
pub mod crew;
pub mod error;
pub mod executor;
pub mod loom_mailbox;
pub mod mailbox;
pub mod policy;
pub mod queue;
pub mod registry;
pub mod rounding;
pub mod scheduler;
pub mod sim;
pub mod sums;
pub mod supervisor;

pub use error::{Error, Result};
pub use executor::{ActorExecutor, ExecutionResult, NullExecutor};
pub use mailbox::{Mailbox, MailboxConfig};
pub use policy::{NoopPolicy, ResourcePolicy};
pub use registry::{ActorRegistry, ActorState};
pub use supervisor::{ChildSpec, ChildState, ExitReason, RestartPolicy, Supervisor};

use vstd::prelude::*;

verus! {

/// Unique identifier for an actor: the 128 bits of its UUID.
#[derive(Debug, Clone, Copy, PartialEq, Eq, Hash, Structural)]
pub struct ActorId(pub u128);

/// Whether `bits` carry the version and variant marks of a random UUID.
pub open spec fn is_random_uuid(bits: u128) -> bool {
    &&& (bits as int / 0x1000_0000_0000_0000_0000) % 16 == 4
    &&& (bits as int / 0x4000_0000_0000_0000) % 4 == 2
}

/// Calls `uuid::Uuid::new_v4` and reads the identifier as a number. Of the
/// random bits only the marks that every such identifier carries are claimed:
/// version nibble 4 and variant bits `10`.
#[verifier::external_body]
fn random_uuid_bits() -> (r: u128)
    ensures
        is_random_uuid(r),
{
    uuid::Uuid::new_v4().as_u128()
}

impl ActorId {
    /// Generate a new random actor ID.
    pub fn new() -> (r: Self)
        ensures
            is_random_uuid(r.0),
    {
        ActorId(random_uuid_bits())
    }
}

impl Default for ActorId {
    fn default() -> (r: Self)
        ensures
            is_random_uuid(r.0),
    {
        Self::new()
    }
}

/// Priority level for actor messages.
#[derive(Debug, Clone, Copy, PartialEq, Eq, PartialOrd, Ord, Hash, Structural)]
pub enum Priority {
    /// Low priority (background tasks)
    Low,
    /// Normal priority (default)
    Normal,
    /// High priority (time-sensitive)
    High,
    /// Critical priority (system messages)
    Critical,
}

impl Priority {
    /// Position in the order of urgency, `Low` first.
    pub open spec fn level(self) -> int {
        match self {
            Priority::Low => 0,
            Priority::Normal => 1,
            Priority::High => 2,
            Priority::Critical => 3,
        }
    }

    /// Position in the order of urgency, `Low` first.
    pub fn rank(self) -> (r: u8)
        ensures
            r == self.level(),
    {
        match self {
            Priority::Low => 0,
            Priority::Normal => 1,
            Priority::High => 2,
            Priority::Critical => 3,
        }
    }
}

impl Default for Priority {
    fn default() -> (r: Self)
        ensures
            r == Priority::Normal,
    {
        Priority::Normal
    }
}

/// System signals.
#[derive(Debug, Clone, Copy, PartialEq, Eq, Structural)]
pub enum Signal {
    /// Pause execution
    Pause,
    /// Resume execution
    Resume,
    /// Restart the actor
    Restart,
}

/// Payload of a message.
#[derive(Debug)]
pub enum MessagePayload {
    /// Start the actor
    Start,
    /// Stop the actor
    Stop,
    /// Custom binary payload
    Custom(Vec<u8>),
    /// System signal
    Signal(Signal),
    /// Default (empty)
    Empty,
}

/// What a payload holds.
pub enum PayloadView {
    /// Start the actor
    Start,
    /// Stop the actor
    Stop,
    /// Custom binary payload
    Custom(Seq<u8>),
    /// System signal
    Signal(Signal),
    /// Nothing
    Empty,
}

impl View for MessagePayload {
    type V = PayloadView;

    open spec fn view(&self) -> PayloadView {
        match *self {
            MessagePayload::Start => PayloadView::Start,
            MessagePayload::Stop => PayloadView::Stop,
            MessagePayload::Custom(bytes) => PayloadView::Custom(bytes@),
            MessagePayload::Signal(s) => PayloadView::Signal(s),
            MessagePayload::Empty => PayloadView::Empty,
        }
    }
}

impl Clone for MessagePayload {
    fn clone(&self) -> (r: Self)
        ensures
            r@ == self@,
    {
        match self {
            MessagePayload::Start => MessagePayload::Start,
            MessagePayload::Stop => MessagePayload::Stop,
            MessagePayload::Custom(bytes) => {
                let copy = bytes.clone();
                assert(copy@ =~= bytes@);
                MessagePayload::Custom(copy)
            },
            MessagePayload::Signal(s) => MessagePayload::Signal(*s),
            MessagePayload::Empty => MessagePayload::Empty,
        }
    }
}

impl Default for MessagePayload {
    fn default() -> (r: Self)
        ensures
            r@ == PayloadView::Empty,
    {
        MessagePayload::Empty
    }
}

/// A message sent to an actor.
#[derive(Debug)]
pub struct Message {
    /// Sender actor ID (None for system messages)
    pub sender: Option<ActorId>,
    /// Message type/payload
    pub payload: MessagePayload,
    /// Message priority
    pub priority: Priority,
}

/// What a message holds.
pub struct MessageView {
    /// Sender actor ID
    pub sender: Option<ActorId>,
    /// Payload
    pub payload: PayloadView,
    /// Priority
    pub priority: Priority,
}

impl View for Message {
    type V = MessageView;

    open spec fn view(&self) -> MessageView {
        MessageView { sender: self.sender, payload: self.payload@, priority: self.priority }
    }
}

impl Clone for Message {
    fn clone(&self) -> (r: Self)
        ensures
            r@ == self@,
    {
        Message { sender: self.sender, payload: self.payload.clone(), priority: self.priority }
    }
}

impl Default for Message {
    fn default() -> (r: Self)
        ensures
            r@ == (MessageView {
                sender: None,
                payload: PayloadView::Empty,
                priority: Priority::Normal,
            }),
    {
        Message { sender: None, payload: MessagePayload::Empty, priority: Priority::Normal }
    }
}

/// A message together with the actor it goes to.
#[derive(Debug)]
pub struct Envelope {
    /// The receiving actor.
    pub target: ActorId,
    /// The message to deliver.
    pub message: Message,
}

/// Context provided to actors during message handling.
#[derive(Debug, Clone, Copy)]
pub struct ActorContext {
    /// Actor's own ID
    pub id: ActorId,
}

impl ActorContext {
    /// The envelope of a normal-priority message from this actor to `target`.
    pub fn send(&self, target: ActorId, payload: MessagePayload) -> (r: Envelope)
        ensures
            r.target == target,
            r.message@ == (MessageView {
                sender: Some(self.id),
                payload: payload@,
                priority: Priority::Normal,
            }),
    {
        Envelope {
            target,
            message: Message { sender: Some(self.id), payload, priority: Priority::Normal },
        }
    }

    /// The envelope of a high-priority message from this actor to `target`.
    pub fn send_high(&self, target: ActorId, payload: MessagePayload) -> (r: Envelope)
        ensures
            r.target == target,
            r.message@ == (MessageView {
                sender: Some(self.id),
                payload: payload@,
                priority: Priority::High,
            }),
    {
        Envelope {
            target,
            message: Message { sender: Some(self.id), payload, priority: Priority::High },
        }
    }
}

/// Urgency is ordered: `Low`, then `Normal`, then `High`, then `Critical`, and
/// no two priorities are as urgent.
pub proof fn law_urgency_is_ordered(a: Priority, b: Priority)
    ensures
        Priority::Low.level() == 0,
        Priority::Normal.level() == 1,
        Priority::High.level() == 2,
        Priority::Critical.level() == 3,
        a.level() == b.level() ==> a == b,
{
}

} // verus!
