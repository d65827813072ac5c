use actor_kit::registry::ActorRegistry;
use actor_kit::{ActorId, ActorState, Error, Mailbox, MailboxConfig, Message, MessagePayload, Priority};

fn custom(priority: Priority, byte: u8) -> Message {
    Message {
        sender: None,
        payload: MessagePayload::Custom(vec![byte]),
        priority,
    }
}

fn byte_of(message: &Message) -> u8 {
    match &message.payload {
        MessagePayload::Custom(bytes) => bytes[0],
        other => panic!("not a custom payload: {other:?}"),
    }
}

#[test]
fn knob_mailbox_config_is_plumbed_into_registry() {
    // A capacity-2 mailbox rejects the 3rd send; the 10_000 default accepts.
    let mut tiny = ActorRegistry::with_mailbox_config(MailboxConfig::new(2));
    let id = ActorId::new();
    tiny.register_named(id, None).unwrap();
    tiny.set_state(&id, ActorState::Running).unwrap();
    tiny.try_send(&id, custom(Priority::Normal, 1)).unwrap();
    tiny.try_send(&id, custom(Priority::Normal, 2)).unwrap();
    assert!(
        tiny.try_send(&id, custom(Priority::Normal, 3)).is_err(),
        "mailbox_config capacity must be honored by spawned actors"
    );

    let mut big = ActorRegistry::with_mailbox_config(MailboxConfig::default());
    let id = ActorId::new();
    big.register_named(id, None).unwrap();
    big.set_state(&id, ActorState::Running).unwrap();
    for b in 0..3 {
        big.try_send(&id, custom(Priority::Normal, b)).unwrap();
    }
}

#[test]
fn knob_mailbox_capacity_bounds_try_send() {
    let mut small = Mailbox::new(ActorId::new(), MailboxConfig::new(2));
    small.try_send(custom(Priority::Normal, 1)).unwrap();
    small.try_send(custom(Priority::Normal, 2)).unwrap();
    assert!(
        small.try_send(custom(Priority::Normal, 3)).is_err(),
        "capacity=2 must reject the 3rd message"
    );

    let mut big = Mailbox::new(ActorId::new(), MailboxConfig::new(4));
    for b in 0..3 {
        big.try_send(custom(Priority::Normal, b)).unwrap();
    }
}

#[test]
fn knob_mailbox_priority_queue_changes_recv_order() {
    // Priority queuing on: Critical jumps ahead of queued Normal.
    let mut prio = Mailbox::new(
        ActorId::new(),
        MailboxConfig {
            priority_queue: true,
            ..MailboxConfig::default()
        },
    );
    prio.try_send(custom(Priority::Normal, 1)).unwrap();
    prio.try_send(custom(Priority::Critical, 2)).unwrap();
    let first = prio.try_recv().unwrap();
    assert_eq!(
        first.priority,
        Priority::Critical,
        "priority_queue=true must deliver Critical first"
    );

    // Off: strict FIFO regardless of priority.
    let mut fifo = Mailbox::new(
        ActorId::new(),
        MailboxConfig {
            priority_queue: false,
            ..MailboxConfig::default()
        },
    );
    fifo.try_send(custom(Priority::Normal, 1)).unwrap();
    fifo.try_send(custom(Priority::Critical, 2)).unwrap();
    let first = fifo.try_recv().unwrap();
    assert_eq!(
        first.priority,
        Priority::Normal,
        "priority_queue=false must keep FIFO order"
    );
}

#[test]
fn knob_backpressure_threshold_moves_the_trip_point() {
    fn pressured(threshold: f32, sends: usize) -> bool {
        let mut mb = Mailbox::new(
            ActorId::new(),
            MailboxConfig {
                capacity: 10,
                backpressure_threshold: (threshold * 1000.0).round() as u16,
                ..MailboxConfig::default()
            },
        );
        for b in 0..sends {
            mb.try_send(custom(Priority::Normal, b as u8)).unwrap();
        }
        mb.is_backpressured()
    }

    // threshold 0.5 trips at 5/10; 0.9 does not trip at 5/10.
    assert!(pressured(0.5, 5));
    assert!(!pressured(0.9, 5));
    // ...but 0.9 trips at 9/10 while 0.5 already tripped.
    assert!(pressured(0.9, 9));
}

#[test]
fn a_refused_message_comes_back_with_the_reason() {
    let mut mb = Mailbox::new(ActorId(5), MailboxConfig::new(1));
    assert_eq!(mb.owner(), ActorId(5));
    mb.try_send(custom(Priority::Normal, 1)).unwrap();
    let (message, error) = mb.try_send(custom(Priority::High, 2)).unwrap_err();
    assert_eq!(byte_of(&message), 2);
    assert_eq!(error, Error::resource_exhausted("mailbox full"));
    assert_eq!(mb.len(), 1);
    assert_eq!(mb.remaining_capacity(), 0);
}

#[test]
fn equals_are_delivered_in_order_of_arrival() {
    let mut mb = Mailbox::new(ActorId(1), MailboxConfig::new(8));
    for (priority, byte) in [
        (Priority::Normal, 1),
        (Priority::High, 2),
        (Priority::Low, 3),
        (Priority::High, 4),
        (Priority::Normal, 5),
        (Priority::Critical, 6),
    ] {
        mb.try_send(custom(priority, byte)).unwrap();
    }
    let mut order = Vec::new();
    while let Some(message) = mb.try_recv() {
        order.push(byte_of(&message));
    }
    assert_eq!(order, vec![6, 2, 4, 1, 5, 3]);
    assert!(mb.is_empty());
    assert_eq!(mb.remaining_capacity(), 8);
}

#[test]
fn every_message_is_delivered_once() {
    for capacity in [1usize, 3, 200] {
        let mut mb = Mailbox::new(ActorId(1), MailboxConfig::new(capacity));
        let mut seen = vec![0u32; capacity];
        for i in 0..capacity {
            mb.try_send(custom(Priority::Normal, i as u8)).unwrap();
        }
        while let Some(message) = mb.try_recv() {
            seen[byte_of(&message) as usize] += 1;
        }
        assert!(seen.iter().all(|&c| c == 1));
        assert!(mb.is_empty());
    }
}

#[test]
fn the_latch_clears_below_half_of_the_threshold() {
    // Capacity 10 at 80%: trips at 8, clears below 4.
    let mut mb = Mailbox::new(ActorId(1), MailboxConfig::new(10));
    for b in 0..7 {
        mb.try_send(custom(Priority::Normal, b)).unwrap();
    }
    assert!(!mb.is_backpressured());
    mb.try_send(custom(Priority::Normal, 7)).unwrap();
    assert!(mb.is_backpressured());
    for _ in 0..4 {
        mb.try_recv().unwrap();
        assert!(mb.is_backpressured());
    }
    mb.try_recv().unwrap();
    assert!(!mb.is_backpressured());
}

#[test]
fn clearing_returns_every_permit() {
    let mut mb = Mailbox::new(ActorId(1), MailboxConfig::new(3));
    for b in 0..3 {
        mb.try_send(custom(Priority::Normal, b)).unwrap();
    }
    assert!(mb.is_backpressured());
    mb.clear();
    assert_eq!((mb.len(), mb.remaining_capacity()), (0, 3));
    assert!(!mb.is_backpressured() || 3 * 800 / 1000 / 2 == 0);
    assert!(mb.try_recv().is_none());
}

#[test]
fn the_registry_knows_whom_it_registered() {
    let mut registry = ActorRegistry::with_mailbox_config(MailboxConfig::new(1));
    let id = ActorId(9);
    assert_eq!(registry.get_state(&id), None);
    assert!(registry.get_mailbox(&id).is_none());
    let (_, error) = registry.try_send(&id, custom(Priority::Normal, 1)).unwrap_err();
    assert_eq!(error, Error::actor("actor not found"));
    assert_eq!(
        registry.set_state(&id, ActorState::Running),
        Err(Error::actor("actor not found"))
    );
    registry.register_named(id, Some("nine".to_string())).unwrap();
    assert_eq!(
        registry.register_named(id, None),
        Err(Error::actor("actor already registered"))
    );
    assert_eq!(registry.get_state(&id), Some(ActorState::Creating));
    registry.try_send(&id, custom(Priority::Normal, 1)).unwrap();
    let (_, error) = registry.try_send(&id, custom(Priority::Normal, 2)).unwrap_err();
    assert_eq!(error, Error::resource_exhausted("mailbox full"));
    assert!(registry.release_slot(&id));
    assert!(!registry.release_slot(&id));
    registry.try_send(&id, custom(Priority::Normal, 3)).unwrap();
    assert_eq!(registry.clear_mailbox(&id), 1);
    assert_eq!(registry.get_mailbox(&id).unwrap().len(), 0);
    assert_eq!(registry.unregister(&id), Ok(()));
    assert_eq!(registry.unregister(&id), Err(Error::actor("actor not found")));
}
