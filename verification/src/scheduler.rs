//! The processing pipeline: what running a task does to the runtime.
//!
//! Each message of a task is executed as long as its actor is viable; the
//! mailbox slot that the message took is then released. A crash is contained:
//! the actor becomes `Failed` and its mailbox is drained.
use crate::mailbox::law_receive_takes_one;
use crate::queue::Task;
use crate::registry::{ActorRegistry, ActorState, EntryView, RegistryView};
use crate::sim::executor::{record_of, ExecRecord, SimExecutor};
use crate::{ActorId, Message, MessagePayload, MessageView, PayloadView};
use vstd::prelude::*;

verus! {

/// Whether an actor processes messages.
pub open spec fn is_viable(registry: RegistryView, id: ActorId) -> bool {
    registry.state(id) matches Some(state) && state.viable()
}

/// The state of an actor after it executed a message.
pub open spec fn next_state(state: ActorState, payload: PayloadView) -> ActorState {
    match payload {
        PayloadView::Start => ActorState::Running,
        PayloadView::Stop => ActorState::Stopped,
        _ => state,
    }
}

/// The registry after an actor consumed a message.
pub open spec fn consumed(registry: RegistryView, id: ActorId, message: MessageView) -> RegistryView {
    let entry = registry.entries[id.0];
    registry.with_entry(
        id,
        EntryView {
            state: next_state(entry.state, message.payload),
            mailbox: if entry.mailbox.queue.len() > 0 {
                entry.mailbox.received()
            } else {
                entry.mailbox
            },
            ..entry
        },
    )
}

/// The registry after an actor ran the given messages.
pub open spec fn ran(registry: RegistryView, id: ActorId, messages: Seq<MessageView>) -> RegistryView
    decreases messages.len(),
{
    if messages.len() == 0 || !is_viable(registry, id) {
        registry
    } else {
        ran(consumed(registry, id, messages[0]), id, messages.drop_first())
    }
}

/// What is observed while an actor runs the given messages.
pub open spec fn observed(
    registry: RegistryView,
    id: ActorId,
    messages: Seq<MessageView>,
) -> Seq<ExecRecord>
    decreases messages.len(),
{
    if messages.len() == 0 || !is_viable(registry, id) {
        Seq::empty()
    } else {
        seq![record_of(id, messages[0])] + observed(
            consumed(registry, id, messages[0]),
            id,
            messages.drop_first(),
        )
    }
}

/// The registry after an actor crashed.
pub open spec fn crashed(registry: RegistryView, id: ActorId) -> RegistryView {
    let entry = registry.entries[id.0];
    registry.with_entry(
        id,
        EntryView { state: ActorState::Failed, mailbox: entry.mailbox.cleared(), ..entry },
    )
}

/// Execute one message of a viable actor and release its mailbox slot, or
/// contain the crash that executing it caused.
fn process_message(
    registry: &mut ActorRegistry,
    id: &ActorId,
    message: &Message,
    executor: &mut SimExecutor,
) -> (r: bool)
    requires
        old(registry).wf(),
        is_viable(old(registry)@, *id),
    ensures
        final(registry).wf(),
        !final(executor).armed(),
        r == !old(executor).armed(),
        r ==> {
            &&& final(registry)@ == consumed(old(registry)@, *id, message@)
            &&& final(executor)@ == old(executor)@.push(record_of(*id, message@))
        },
        !r ==> {
            &&& final(registry)@ == crashed(old(registry)@, *id)
            &&& final(executor)@ == old(executor)@
        },
{
    let ghost before = registry@;
    match executor.try_execute(id, message) {
        Ok(_) => {
            let state: Option<ActorState> = match &message.payload {
                MessagePayload::Start => Some(ActorState::Running),
                MessagePayload::Stop => Some(ActorState::Stopped),
                _ => None,
            };
            if let Some(s) = state {
                let _ = registry.set_state(id, s);
            }
            let _ = registry.release_slot(id);
            assert(registry@.entries =~= consumed(before, *id, message@).entries);
            true
        },
        Err(_) => {
            let _ = registry.set_state(id, ActorState::Failed);
            let _ = registry.clear_mailbox(id);
            assert(registry@.entries =~= crashed(before, *id).entries);
            false
        },
    }
}

/// Whether the actor processes messages.
fn viable(registry: &ActorRegistry, id: &ActorId) -> (r: bool)
    ensures
        r == is_viable(registry@, *id),
{
    match registry.get_state(id) {
        Some(state) => state == ActorState::Creating || state == ActorState::Running,
        None => false,
    }
}

/// Run a task and tell how many messages were executed.
///
/// A task whose actor is not viable is dropped. When the executor is armed,
/// the first message crashes the actor and nothing is executed.
pub fn process_task(registry: &mut ActorRegistry, task: Task, executor: &mut SimExecutor) -> (r:
    usize)
    requires
        old(registry).wf(),
        task.additional_messages@.len() < usize::MAX,
    ensures
        final(registry).wf(),
        !is_viable(old(registry)@, task.actor_id) ==> {
            &&& final(registry)@ == old(registry)@
            &&& final(executor)@ == old(executor)@
            &&& final(executor).armed() == old(executor).armed()
            &&& r == 0
        },
        is_viable(old(registry)@, task.actor_id) && old(executor).armed() ==> {
            &&& final(registry)@ == crashed(old(registry)@, task.actor_id)
            &&& final(executor)@ == old(executor)@
            &&& !final(executor).armed()
            &&& r == 0
        },
        is_viable(old(registry)@, task.actor_id) && !old(executor).armed() ==> {
            &&& final(registry)@ == ran(old(registry)@, task.actor_id, task.messages())
            &&& final(executor)@ == old(executor)@ + observed(
                old(registry)@,
                task.actor_id,
                task.messages(),
            )
            &&& !final(executor).armed()
            &&& r == observed(old(registry)@, task.actor_id, task.messages()).len()
        },
        is_viable(old(registry)@, task.actor_id) && !old(executor).armed() ==> ({
            let before = old(registry)@.entries[task.actor_id.0].state;
            let after = final(registry)@.entries[task.actor_id.0].state;
            let starts = exists|i: int|
                0 <= i < task.messages().len() && (#[trigger] task.messages()[i]).payload is Start;
            let stops = exists|i: int|
                0 <= i < task.messages().len() && (#[trigger] task.messages()[i]).payload is Stop;
            &&& stops ==> after == ActorState::Stopped
            &&& !stops && starts ==> after == ActorState::Running
            &&& !stops && !starts ==> after == before
        }),
{
    let id = task.actor_id;
    let ghost reg0 = registry@;
    let ghost rec0 = executor@;
    let ghost all = task.messages();
    let ghost rest = task.additional_messages@.map_values(|m: Message| m@);
    if !viable(registry, &id) {
        return 0;
    }
    if !process_message(registry, &id, &task.message, executor) {
        return 0;
    }
    let ghost reg1 = consumed(reg0, id, task.message@);
    proof {
        assert(all[0] == task.message@);
        assert(all.drop_first() =~= rest);
    }
    let mut count: usize = 1;
    let mut i: usize = 0;
    proof {
        assert(rest.skip(0) =~= rest);
        assert(executor@ + observed(reg1, id, rest) =~= rec0 + observed(reg0, id, all));
    }
    while i < task.additional_messages.len()
        invariant
            registry.wf(),
            !executor.armed(),
            is_viable(old(registry)@, task.actor_id),
            !old(executor).armed(),
            id == task.actor_id,
            reg0 == old(registry)@,
            rec0 == old(executor)@,
            all == task.messages(),
            i <= task.additional_messages@.len(),
            rest == task.additional_messages@.map_values(|m: Message| m@),
            rest.len() == task.additional_messages@.len(),
            task.additional_messages@.len() < usize::MAX,
            count <= i + 1,
            ran(registry@, id, rest.skip(i as int)) == ran(reg0, id, all),
            executor@ + observed(registry@, id, rest.skip(i as int)) == rec0 + observed(reg0, id, all),
            count + observed(registry@, id, rest.skip(i as int)).len() == observed(reg0, id, all).len(),
        decreases task.additional_messages@.len() - i,
    {
        if !viable(registry, &id) {
            proof {
                assert(executor@ + observed(registry@, id, rest.skip(i as int)) =~= executor@);
                lemma_state_after(reg0, id, all);
            }
            return count;
        }
        let ghost reg = registry@;
        let ghost rec = executor@;
        proof {
            assert(rest.skip(i as int)[0] == task.additional_messages@[i as int]@);
            assert(rest.skip(i as int).drop_first() =~= rest.skip(i + 1));
        }
        let _ = process_message(registry, &id, &task.additional_messages[i], executor);
        proof {
            let m = task.additional_messages@[i as int]@;
            assert(rec + (seq![record_of(id, m)] + observed(registry@, id, rest.skip(i + 1)))
                =~= rec.push(record_of(id, m)) + observed(registry@, id, rest.skip(i + 1)));
        }
        count = count + 1;
        i = i + 1;
    }
    proof {
        assert(rest.skip(i as int).len() == 0);
        assert(executor@ + observed(registry@, id, rest.skip(i as int)) =~= executor@);
        lemma_state_after(reg0, id, all);
    }
    count
}

/// Running messages none of which stops the actor executes them all, keeps
/// the actor viable, and releases as many mailbox slots as there are messages.
/// Nothing else in the registry changes.
pub proof fn lemma_ran(registry: RegistryView, id: ActorId, messages: Seq<MessageView>)
    requires
        is_viable(registry, id),
        registry.waiting(id) >= messages.len(),
        forall|i: int| 0 <= i < messages.len() ==> !((#[trigger] messages[i]).payload is Stop),
    ensures
        ran(registry, id, messages).config == registry.config,
        ran(registry, id, messages).entries.dom() == registry.entries.dom(),
        forall|k: u128|
            k != id.0 && registry.entries.contains_key(k) ==> #[trigger] ran(
                registry,
                id,
                messages,
            ).entries[k] == registry.entries[k],
        is_viable(ran(registry, id, messages), id),
        ran(registry, id, messages).waiting(id) == registry.waiting(id) - messages.len(),
        ran(registry, id, messages).entries[id.0].mailbox.config
            == registry.entries[id.0].mailbox.config,
        observed(registry, id, messages) == messages.map_values(|m: MessageView| record_of(id, m)),
    decreases messages.len(),
{
    if messages.len() > 0 {
        let next = consumed(registry, id, messages[0]);
        let rest = messages.drop_first();
        law_receive_takes_one(registry.entries[id.0].mailbox);
        assert forall|i: int| 0 <= i < rest.len() implies !((#[trigger] rest[i]).payload is Stop) by {
            assert(rest[i] == messages[i + 1]);
        }
        assert(!(messages[0].payload is Stop));
        lemma_ran(next, id, rest);
        assert(next.entries.dom() =~= registry.entries.dom());
        let f = |m: MessageView| record_of(id, m);
        assert(messages.map_values(f) =~= seq![record_of(id, messages[0])] + rest.map_values(f));
    } else {
        assert(messages.map_values(|m: MessageView| record_of(id, m)) =~= Seq::empty());
    }
}

/// A crash is contained: the actor is marked as failed and its mailbox is
/// drained, it processes nothing any more, and no other actor is touched.
pub proof fn law_crash_contained(registry: RegistryView, id: ActorId, messages: Seq<MessageView>)
    requires
        registry.entries.contains_key(id.0),
    ensures
        crashed(registry, id).state(id) == Some(ActorState::Failed),
        crashed(registry, id).waiting(id) == 0,
        !is_viable(crashed(registry, id), id),
        ran(crashed(registry, id), id, messages) == crashed(registry, id),
        observed(crashed(registry, id), id, messages).len() == 0,
        forall|k: u128|
            k != id.0 && registry.entries.contains_key(k) ==> #[trigger] crashed(
                registry,
                id,
            ).entries[k] == registry.entries[k],
        crashed(registry, id).entries.dom() == registry.entries.dom(),
{
    assert(crashed(registry, id).entries.dom() =~= registry.entries.dom());
}

/// What one executed message does to its actor's entry: a start makes the actor
/// running, a stop makes it stopped, and any other message leaves its state as
/// it was; one waiting message less is in its mailbox. Its name and its
/// mailbox's settings stay, and no other actor is touched.
pub proof fn law_message_consumed(registry: RegistryView, id: ActorId, message: MessageView)
    requires
        registry.entries.contains_key(id.0),
    ensures
        ({
            let before = registry.entries[id.0];
            let after = consumed(registry, id, message).entries[id.0];
            &&& message.payload is Start ==> after.state == ActorState::Running
            &&& message.payload is Stop ==> after.state == ActorState::Stopped
            &&& !(message.payload is Start) && !(message.payload is Stop) ==> after.state
                == before.state
            &&& before.mailbox.queue.len() > 0 ==> after.mailbox.queue.len()
                == before.mailbox.queue.len() - 1
            &&& before.mailbox.queue.len() == 0 ==> after.mailbox == before.mailbox
            &&& after.mailbox.config == before.mailbox.config
            &&& after.name == before.name
        }),
        consumed(registry, id, message).entries.dom() == registry.entries.dom(),
        consumed(registry, id, message).config == registry.config,
        forall|k: u128|
            k != id.0 && registry.entries.contains_key(k) ==> #[trigger] consumed(
                registry,
                id,
                message,
            ).entries[k] == registry.entries[k],
{
    if registry.entries[id.0].mailbox.queue.len() > 0 {
        law_receive_takes_one(registry.entries[id.0].mailbox);
    }
    assert(consumed(registry, id, message).entries.dom() =~= registry.entries.dom());
}

/// How many of the messages are executed: all of them, or those up to and with
/// the first that stops the actor.
pub open spec fn executed(messages: Seq<MessageView>) -> int
    decreases messages.len(),
{
    if messages.len() == 0 {
        0
    } else if messages[0].payload is Stop {
        1
    } else {
        1 + executed(messages.drop_first())
    }
}

/// The messages executed are a start of the list, and none but the last of them
/// stops the actor.
pub proof fn lemma_executed(messages: Seq<MessageView>)
    ensures
        0 <= executed(messages) <= messages.len(),
        messages.len() > 0 ==> executed(messages) > 0,
        forall|i: int| 0 <= i < executed(messages) - 1 ==> !((#[trigger] messages[i]).payload is Stop),
        executed(messages) < messages.len() ==> messages[executed(messages) - 1].payload is Stop,
    decreases messages.len(),
{
    if messages.len() > 0 && !(messages[0].payload is Stop) {
        let rest = messages.drop_first();
        lemma_executed(rest);
        assert forall|i: int| 0 <= i < executed(messages) - 1 implies !((
        #[trigger] messages[i]).payload is Stop) by {
            if i > 0 {
                assert(messages[i] == rest[i - 1]);
            }
        }
        if executed(messages) < messages.len() {
            if rest.len() > 0 {
                assert(rest[executed(rest) - 1] == messages[executed(messages) - 1]);
            }
        }
    }
}

/// What running messages does to a live actor: those up to the first that stops
/// it are executed, in order, each observed once under its own identity; each
/// frees a mailbox slot while there are any to free. Stopped, the actor stays
/// so. Otherwise it is running if it was or if one of the messages started it,
/// and not started yet if neither is so. No other actor is touched.
pub proof fn law_messages_ran(registry: RegistryView, id: ActorId, messages: Seq<MessageView>)
    requires
        registry.entries.contains_key(id.0),
        registry.entries[id.0].state == ActorState::Creating || registry.entries[id.0].state
            == ActorState::Running,
    ensures
        ({
            let n = executed(messages);
            let before = registry.entries[id.0];
            let after = ran(registry, id, messages).entries[id.0];
            let stopped = n > 0 && messages[n - 1].payload is Stop;
            &&& observed(registry, id, messages) == messages.take(n).map_values(
                |m: MessageView| record_of(id, m),
            )
            &&& stopped ==> after.state == ActorState::Stopped
            &&& !stopped && before.state == ActorState::Running ==> after.state
                == ActorState::Running
            &&& !stopped && (exists|i: int|
                0 <= i < messages.len() && (#[trigger] messages[i]).payload is Start)
                ==> after.state == ActorState::Running
            &&& !stopped && before.state == ActorState::Creating && (forall|i: int|
                0 <= i < messages.len() ==> !((#[trigger] messages[i]).payload is Start))
                ==> after.state == ActorState::Creating
            &&& after.mailbox.queue.len() == (if before.mailbox.queue.len() >= n {
                before.mailbox.queue.len() - n
            } else {
                0
            })
            &&& after.mailbox.config == before.mailbox.config
            &&& after.name == before.name
        }),
        ran(registry, id, messages).entries.dom() == registry.entries.dom(),
        ran(registry, id, messages).config == registry.config,
        forall|k: u128|
            k != id.0 && registry.entries.contains_key(k) ==> #[trigger] ran(
                registry,
                id,
                messages,
            ).entries[k] == registry.entries[k],
    decreases messages.len(),
{
    let f = |m: MessageView| record_of(id, m);
    let n = executed(messages);
    lemma_executed(messages);
    if messages.len() == 0 {
        assert(observed(registry, id, messages) =~= messages.take(n).map_values(f));
    } else {
        let next = consumed(registry, id, messages[0]);
        let rest = messages.drop_first();
        law_message_consumed(registry, id, messages[0]);
        assert(next.entries.contains_key(id.0));
        if messages[0].payload is Stop {
            assert(!is_viable(next, id));
            assert(ran(next, id, rest) == next);
            assert(observed(next, id, rest) == Seq::<ExecRecord>::empty());
            assert(observed(registry, id, messages) =~= messages.take(1).map_values(f));
        } else {
            law_messages_ran(next, id, rest);
            lemma_executed(rest);
            assert(observed(registry, id, messages) =~= messages.take(n).map_values(f)) by {
                assert(messages.take(n).map_values(f) =~= seq![record_of(id, messages[0])]
                    + rest.take(n - 1).map_values(f));
            }
            if n > 1 {
                assert(rest[n - 2] == messages[n - 1]);
            }
            let stopped = messages[n - 1].payload is Stop;
            if !stopped {
                if exists|i: int|
                    0 <= i < messages.len() && (#[trigger] messages[i]).payload is Start {
                    let i = choose|i: int|
                        0 <= i < messages.len() && (#[trigger] messages[i]).payload is Start;
                    if i > 0 {
                        assert(rest[i - 1].payload is Start);
                    }
                } else {
                    assert forall|i: int| 0 <= i < rest.len() implies !((
                    #[trigger] rest[i]).payload is Start) by {
                        assert(rest[i] == messages[i + 1]);
                    }
                }
            }
        }
    }
}

/// A task for an actor that is neither new nor running does nothing.
pub proof fn law_dead_run_nothing(registry: RegistryView, id: ActorId, messages: Seq<MessageView>)
    requires
        registry.entries.contains_key(id.0) ==> registry.entries[id.0].state == ActorState::Stopped
            || registry.entries[id.0].state == ActorState::Failed,
    ensures
        !is_viable(registry, id),
        ran(registry, id, messages) == registry,
        observed(registry, id, messages).len() == 0,
{
}

/// What a crash does to its actor's entry: the actor has failed and nothing is
/// waiting for it any more. Its name and its mailbox's settings stay.
pub proof fn law_crashed_entry(registry: RegistryView, id: ActorId)
    requires
        registry.entries.contains_key(id.0),
    ensures
        crashed(registry, id).entries[id.0].state == ActorState::Failed,
        crashed(registry, id).entries[id.0].mailbox.queue.len() == 0,
        crashed(registry, id).entries[id.0].mailbox.config
            == registry.entries[id.0].mailbox.config,
        crashed(registry, id).entries[id.0].name == registry.entries[id.0].name,
        crashed(registry, id).config == registry.config,
        is_viable(registry, id) == (registry.entries[id.0].state == ActorState::Creating
            || registry.entries[id.0].state == ActorState::Running),
{
}

/// A live actor's state after it ran messages: stopped if one of them stops it,
/// otherwise running if one of them starts it, otherwise what it was.
pub proof fn lemma_state_after(registry: RegistryView, id: ActorId, messages: Seq<MessageView>)
    requires
        registry.entries.contains_key(id.0),
        registry.entries[id.0].state == ActorState::Creating || registry.entries[id.0].state
            == ActorState::Running,
    ensures
        ({
            let before = registry.entries[id.0].state;
            let after = ran(registry, id, messages).entries[id.0].state;
            let starts = exists|i: int|
                0 <= i < messages.len() && (#[trigger] messages[i]).payload is Start;
            let stops = exists|i: int|
                0 <= i < messages.len() && (#[trigger] messages[i]).payload is Stop;
            &&& stops ==> after == ActorState::Stopped
            &&& !stops && starts ==> after == ActorState::Running
            &&& !stops && !starts ==> after == before
        }),
{
    law_messages_ran(registry, id, messages);
    lemma_executed(messages);
}

} // verus!
