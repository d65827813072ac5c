//! The unit of work that the scheduler hands out.
use crate::{ActorId, Message, MessageView, Priority};
use vstd::prelude::*;

verus! {

/// A message, or a batch of messages, for one actor.
#[derive(Debug)]
pub struct Task {
    /// The target actor.
    pub actor_id: ActorId,
    /// The first message.
    pub message: Message,
    /// The priority with which the task is scheduled.
    pub priority: Priority,
    /// The other messages of a batch, in order.
    pub additional_messages: Vec<Message>,
}

impl Task {
    /// The messages of the task, in order.
    pub open spec fn messages(self) -> Seq<MessageView> {
        seq![self.message@] + self.additional_messages@.map_values(|m: Message| m@)
    }
}

/// The messages of a task: the first, then the others of the batch.
pub proof fn law_task_messages(t: Task, i: int)
    requires
        0 <= i < t.additional_messages@.len(),
    ensures
        t.messages().len() == t.additional_messages@.len() + 1,
        t.messages()[0] == t.message@,
        t.messages()[i + 1] == t.additional_messages@[i]@,
{
}

} // verus!
