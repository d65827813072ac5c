use actor_kit::queue::Task;
use actor_kit::registry::ActorRegistry;
use actor_kit::scheduler::process_task;
use actor_kit::sim::{ExecTag, SimExecutor};
use actor_kit::{
    ActorContext, ActorId, ActorState, Error, MailboxConfig, Message, MessagePayload, NoopPolicy,
    Priority, ResourcePolicy, Signal,
};

fn custom(mid: u64) -> Message {
    Message {
        sender: None,
        payload: MessagePayload::Custom(mid.to_le_bytes().to_vec()),
        priority: Priority::Normal,
    }
}

fn task(id: ActorId, message: Message, rest: Vec<Message>) -> Task {
    Task {
        actor_id: id,
        message,
        priority: Priority::Normal,
        additional_messages: rest,
    }
}

fn start() -> Message {
    Message {
        sender: None,
        payload: MessagePayload::Start,
        priority: Priority::Normal,
    }
}

#[test]
fn fresh_identifiers_are_random_uuids() {
    let (a, b) = (ActorId::new(), ActorId::default());
    assert_ne!(a, b);
    for id in [a, b] {
        assert_eq!((id.0 >> 76) & 0xF, 4, "version");
        assert_eq!((id.0 >> 62) & 0x3, 2, "variant");
        assert_eq!(uuid::Uuid::from_u128(id.0).get_version_num(), 4);
    }
}

#[test]
fn errors_describe_themselves() {
    assert_eq!(Error::actor("gone").describe(), "actor error: gone");
    assert_eq!(
        Error::resource_exhausted("mailbox full").describe(),
        "resource exhausted: mailbox full"
    );
    assert_eq!(Error::serialization("eof").describe(), "serialization failed: eof");
    assert_eq!(Error::internal("bug").describe(), "internal error: bug");
    assert_eq!(Error::actor("x"), Error::Actor("x".to_string()));
    assert_ne!(Error::actor("x"), Error::internal("x"));
}

#[test]
fn the_default_policy_admits_everything() {
    let policy = NoopPolicy;
    assert_eq!(policy.admit_actor(), Ok(()));
    assert_eq!(policy.admit_message(1_000), Ok(()));
    policy.release_actor();
}

#[test]
fn priorities_are_ordered() {
    assert!(Priority::Low < Priority::Normal);
    assert!(Priority::Normal < Priority::High);
    assert!(Priority::High < Priority::Critical);
    assert_eq!(Priority::default(), Priority::Normal);
    assert_eq!(Priority::Critical.rank(), 3);
}

#[test]
fn defaults_are_empty() {
    let message = Message::default();
    assert!(message.sender.is_none());
    assert!(matches!(message.payload, MessagePayload::Empty));
    assert_eq!(message.priority, Priority::Normal);
    assert!(matches!(MessagePayload::default(), MessagePayload::Empty));
}

#[test]
fn contexts_sign_what_they_send() {
    let context = ActorContext { id: ActorId(7) };
    let normal = context.send(ActorId(8), MessagePayload::Custom(vec![1]));
    assert_eq!(normal.target, ActorId(8));
    assert_eq!(normal.message.sender, Some(ActorId(7)));
    assert_eq!(normal.message.priority, Priority::Normal);
    assert!(matches!(&normal.message.payload, MessagePayload::Custom(b) if b == &vec![1]));
    let urgent = context.send_high(ActorId(9), MessagePayload::Signal(Signal::Pause));
    assert_eq!(urgent.target, ActorId(9));
    assert_eq!(urgent.message.priority, Priority::High);
    assert!(matches!(urgent.message.payload, MessagePayload::Signal(Signal::Pause)));
}

#[test]
fn running_a_task_executes_it_and_releases_its_slots() {
    let mut registry = ActorRegistry::with_mailbox_config(MailboxConfig::new(4));
    let mut executor = SimExecutor::new();
    let id = ActorId(1);
    registry.register_named(id, None).unwrap();
    for message in [start(), custom(5), custom(6)] {
        registry.try_send(&id, message).unwrap();
    }
    assert_eq!(process_task(&mut registry, task(id, start(), vec![]), &mut executor), 1);
    assert_eq!(registry.get_state(&id), Some(ActorState::Running));
    let batch = task(id, custom(5), vec![custom(6)]);
    assert_eq!(process_task(&mut registry, batch, &mut executor), 2);
    assert_eq!(registry.get_mailbox(&id).unwrap().len(), 0);
    let tags: Vec<ExecTag> = executor.drain_records().iter().map(|r| r.tag).collect();
    assert_eq!(tags, vec![ExecTag::System, ExecTag::Custom(5), ExecTag::Custom(6)]);
}

#[test]
fn a_crash_is_contained() {
    let mut registry = ActorRegistry::with_mailbox_config(MailboxConfig::new(4));
    let mut executor = SimExecutor::new();
    let (id, other) = (ActorId(1), ActorId(2));
    registry.register_named(id, None).unwrap();
    registry.register_named(other, None).unwrap();
    for _ in 0..3 {
        registry.try_send(&id, custom(1)).unwrap();
    }
    registry.try_send(&other, custom(2)).unwrap();
    executor.arm_crash(true);
    let batch = task(id, custom(1), vec![custom(1)]);
    assert_eq!(process_task(&mut registry, batch, &mut executor), 0);
    assert_eq!(registry.get_state(&id), Some(ActorState::Failed));
    assert_eq!(registry.get_mailbox(&id).unwrap().len(), 0);
    assert_eq!(executor.record_count(), 0);
    // The crashed actor runs nothing any more; the other one does.
    assert_eq!(process_task(&mut registry, task(id, custom(1), vec![]), &mut executor), 0);
    assert_eq!(process_task(&mut registry, task(other, custom(2), vec![]), &mut executor), 1);
    assert_eq!(registry.get_mailbox(&other).unwrap().len(), 0);
}

#[test]
fn a_stopped_actor_runs_no_further() {
    let mut registry = ActorRegistry::with_mailbox_config(MailboxConfig::new(4));
    let mut executor = SimExecutor::new();
    let id = ActorId(1);
    registry.register_named(id, None).unwrap();
    let stop = Message {
        sender: None,
        payload: MessagePayload::Stop,
        priority: Priority::Normal,
    };
    let batch = task(id, stop, vec![custom(1)]);
    assert_eq!(process_task(&mut registry, batch, &mut executor), 1);
    assert_eq!(registry.get_state(&id), Some(ActorState::Stopped));
    let unknown = task(ActorId(77), custom(1), vec![]);
    assert_eq!(process_task(&mut registry, unknown, &mut executor), 0);
}
