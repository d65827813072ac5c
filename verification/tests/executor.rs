use actor_kit::sim::executor::InjectedCrash;
use actor_kit::sim::{ExecRecord, ExecTag, SimExecutor};
use actor_kit::{
    ActorExecutor, ActorId, ExecutionResult, Message, MessagePayload, NullExecutor, Priority,
};

fn custom_msg(mid: u64) -> Message {
    Message {
        sender: None,
        payload: MessagePayload::Custom(mid.to_le_bytes().to_vec()),
        priority: Priority::Normal,
    }
}

#[test]
fn test_null_executor() {
    let mut executor = NullExecutor::new();
    let actor_id = ActorId::new();
    let message = Message {
        sender: None,
        payload: MessagePayload::Start,
        priority: Priority::Normal,
    };

    let result = executor.execute(&actor_id, &message);
    assert!(matches!(result, ExecutionResult::Success { .. }));
    assert_eq!(executor.call_count(), 1);
}

#[test]
fn test_null_executor_is_ready() {
    let executor = NullExecutor::new();
    let actor_id = ActorId::new();
    assert!(executor.is_ready(&actor_id));
}

#[test]
fn null_executor_reports_fuel_and_resets() {
    let mut executor = NullExecutor::default();
    let actor_id = ActorId::new();
    assert_eq!(executor.get_fuel(&actor_id), Some(1_000_000));
    assert_eq!(executor.reset(&actor_id), Ok(()));
    assert_eq!(executor.call_count(), 0);
}

#[test]
fn test_execution_result_debug() {
    let result = ExecutionResult::Success {
        fuel_consumed: 100,
        response: Some(vec![1, 2, 3]),
    };
    let debug_str = format!("{:?}", result);
    assert!(debug_str.contains("Success"));
}

#[test]
fn records_identities_and_system_messages() {
    let mut ex = SimExecutor::new();
    let actor = ActorId(1);
    let _ = ex.execute(&actor, &custom_msg(42));
    let _ = ex.execute(
        &actor,
        &Message {
            sender: None,
            payload: MessagePayload::Start,
            priority: Priority::High,
        },
    );
    let records = ex.drain_records();
    assert_eq!(records.len(), 2);
    assert_eq!(
        records[0],
        ExecRecord {
            actor,
            tag: ExecTag::Custom(42)
        }
    );
    assert_eq!(
        records[1],
        ExecRecord {
            actor,
            tag: ExecTag::System
        }
    );
    assert_eq!(ex.record_count(), 0, "drained");
}

#[test]
fn payloads_of_other_lengths_carry_no_identity() {
    let mut ex = SimExecutor::new();
    let actor = ActorId(3);
    for bytes in [vec![], vec![1; 7], vec![1; 9]] {
        let message = Message {
            sender: None,
            payload: MessagePayload::Custom(bytes),
            priority: Priority::Normal,
        };
        let _ = ex.execute(&actor, &message);
    }
    assert_eq!(ex.record_count(), 3);
    for record in ex.drain_records() {
        assert_eq!(record.tag, ExecTag::System);
    }
}

#[test]
fn armed_crash_panics_once_then_disarms() {
    let mut ex = SimExecutor::new();
    let actor = ActorId(2);
    ex.arm_crash(true);
    let caught = ex.try_execute(&actor, &custom_msg(1));
    assert!(matches!(caught, Err(InjectedCrash)), "armed execute must crash");
    // Disarmed by the crash: next execute succeeds and records.
    let caught = ex.try_execute(&actor, &custom_msg(1));
    assert!(caught.is_ok(), "crash is single-shot");
    assert_eq!(ex.drain_records().len(), 1, "only the post-crash record");
}

#[test]
fn sim_executor_is_always_ready_with_fuel_to_spare() {
    let mut ex = SimExecutor::default();
    assert!(ex.is_ready(&ActorId(1)));
    assert_eq!(ex.get_fuel(&ActorId(1)), Some(u64::MAX));
    assert_eq!(ex.reset(&ActorId(1)), Ok(()));
}
