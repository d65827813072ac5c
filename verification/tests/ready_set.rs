use actor_kit::queue::Task;
use actor_kit::sim::faults::SimRng;
use actor_kit::sim::scheduler::{actor_key, ReadySet, SimTask};
use actor_kit::sim::SchedulingPolicy;
use actor_kit::{ActorId, Message, MessagePayload, Priority};

/// Deterministic test ID.
fn test_id(n: u64) -> ActorId {
    ActorId(0xA77C_70B1_5160_0000 + n as u128)
}

fn task_for(id: ActorId, prio: Priority, tag: u8) -> SimTask {
    SimTask {
        ord: 0,
        task: Task {
            actor_id: id,
            message: Message {
                sender: None,
                payload: MessagePayload::Custom(vec![tag]),
                priority: prio,
            },
            priority: prio,
            additional_messages: Vec::new(),
        },
        mids: vec![tag as u64],
    }
}

#[test]
fn priority_drains_before_ready_under_all_policies() {
    let a = test_id(1);
    let b = test_id(2);
    for policy in [
        SchedulingPolicy::Fifo,
        SchedulingPolicy::Random,
        SchedulingPolicy::RoundRobin,
    ] {
        let mut set = ReadySet::new();
        let mut rng = SimRng::new(1);
        set.push(task_for(a, Priority::Normal, 1));
        set.push(task_for(b, Priority::Critical, 2));
        let first = set.pick(policy, &mut rng, 1).unwrap();
        assert_eq!(first.task.priority, Priority::Critical);
        let second = set.pick(policy, &mut rng, 2).unwrap();
        assert_eq!(second.task.priority, Priority::Normal);
        assert!(set.pick(policy, &mut rng, 3).is_none());
    }
}

#[test]
fn fifo_preserves_order() {
    let a = test_id(1);
    let mut set = ReadySet::new();
    let mut rng = SimRng::new(1);
    set.push(task_for(a, Priority::Normal, 10));
    set.push(task_for(a, Priority::Normal, 11));
    assert_eq!(
        set.pick(SchedulingPolicy::Fifo, &mut rng, 1).unwrap().mids[0],
        10
    );
    assert_eq!(
        set.pick(SchedulingPolicy::Fifo, &mut rng, 2).unwrap().mids[0],
        11
    );
}

#[test]
fn round_robin_serves_actors_fairly() {
    let a = test_id(1);
    let b = test_id(2);
    let mut set = ReadySet::new();
    let mut rng = SimRng::new(1);
    set.push(task_for(a, Priority::Normal, 1));
    set.push(task_for(a, Priority::Normal, 2));
    set.push(task_for(b, Priority::Normal, 3));
    set.push(task_for(b, Priority::Normal, 4));
    let seq: Vec<u64> = (0..4)
        .map(|t| {
            set.pick(SchedulingPolicy::RoundRobin, &mut rng, t + 1)
                .unwrap()
                .mids[0]
        })
        .collect();
    // Strict alternation once every actor has been served once.
    assert_eq!(
        &seq[..],
        &[1, 3, 2, 4],
        "round-robin must alternate actors: got {seq:?}"
    );
    assert_eq!(set.total_queued_msgs(), 0);
}

#[test]
fn urgent_tasks_keep_their_order_among_themselves() {
    let mut set = ReadySet::new();
    let mut rng = SimRng::new(1);
    set.push(task_for(test_id(1), Priority::High, 1));
    set.push(task_for(test_id(2), Priority::Critical, 2));
    set.push(task_for(test_id(3), Priority::Low, 3));
    let seq: Vec<u64> = (0..3)
        .map(|t| set.pick(SchedulingPolicy::Random, &mut rng, t).unwrap().mids[0])
        .collect();
    assert_eq!(seq, vec![1, 2, 3]);
}

#[test]
fn random_picks_by_the_stream() {
    // The stream of seed 42 scales to 6, then 2, then (of six) 5.
    let mut set = ReadySet::new();
    let mut rng = SimRng::new(42);
    for tag in 0..8 {
        set.push(task_for(test_id(1), Priority::Normal, tag));
    }
    assert_eq!(set.pick(SchedulingPolicy::Random, &mut rng, 1).unwrap().mids[0], 6);
    assert_eq!(set.pick(SchedulingPolicy::Random, &mut rng, 1).unwrap().mids[0], 2);
    assert_eq!(set.total_queued_msgs(), 6);
}

#[test]
fn totals_count_messages_not_tasks() {
    let mut set = ReadySet::new();
    let mut rng = SimRng::new(1);
    assert!(set.is_empty());
    let mut batch = task_for(test_id(1), Priority::Normal, 1);
    batch.mids = vec![1, 2, 3];
    assert_eq!(batch.app_len(), 3);
    assert_eq!(batch.ord(), 0);
    set.push(batch);
    let mut start = task_for(test_id(2), Priority::Normal, 2);
    start.mids = Vec::new();
    set.push(start);
    assert_eq!(set.total_queued_msgs(), 3);
    set.pick(SchedulingPolicy::Fifo, &mut rng, 1);
    assert_eq!(set.total_queued_msgs(), 0);
    assert!(!set.is_empty());
    set.pick(SchedulingPolicy::Fifo, &mut rng, 2);
    assert!(set.is_empty());
}

#[test]
fn keys_are_the_bits_of_the_identifier() {
    assert_eq!(actor_key(&test_id(7)), 0xA77C_70B1_5160_0007);
    assert_eq!(SchedulingPolicy::default(), SchedulingPolicy::Fifo);
}

#[test]
fn queued_tasks_wait_their_turn() {
    let order = [
        (Priority::Normal, 1),
        (Priority::High, 2),
        (Priority::Low, 3),
        (Priority::Critical, 4),
        (Priority::Normal, 5),
        (Priority::High, 6),
    ];
    let mut set = ReadySet::new();
    let mut rng = SimRng::new(1);
    for (priority, tag) in order {
        let before = set.total_queued_msgs();
        set.push(task_for(test_id(tag as u64), priority, tag));
        assert_eq!(set.total_queued_msgs(), before + 1);
    }
    let seq: Vec<u64> = (0..6)
        .map(|t| set.pick(SchedulingPolicy::Fifo, &mut rng, t).unwrap().mids[0])
        .collect();
    assert_eq!(seq, vec![2, 4, 6, 1, 3, 5]);
}

#[test]
fn only_a_random_choice_draws() {
    for (policy, urgent, draws) in [
        (SchedulingPolicy::Random, false, true),
        (SchedulingPolicy::Random, true, false),
        (SchedulingPolicy::Fifo, false, false),
        (SchedulingPolicy::RoundRobin, false, false),
    ] {
        let mut set = ReadySet::new();
        let mut rng = SimRng::new(8);
        set.push(task_for(test_id(1), Priority::Normal, 1));
        if urgent {
            set.push(task_for(test_id(2), Priority::High, 2));
        }
        let picked = set.pick(policy, &mut rng, 1).unwrap();
        assert_eq!(picked.task.priority == Priority::High, urgent);
        let mut fresh = SimRng::new(8);
        let skipped = fresh.next_u64();
        let next = rng.next_u64();
        assert_eq!(next != skipped, draws);
    }
    let mut rng = SimRng::new(8);
    assert!(ReadySet::new().pick(SchedulingPolicy::Random, &mut rng, 1).is_none());
    assert_eq!(rng.next_u64(), SimRng::new(8).next_u64());
}
