use actor_kit::supervisor::{ChildSpec, ChildState, ExitReason, RestartPolicy, Supervisor};
use actor_kit::Error;

fn supervisor_with_policy(policy: RestartPolicy) -> Supervisor {
    let mut supervisor = Supervisor::new(10);
    supervisor
        .start_child(ChildSpec::new("child".to_string()).restart_policy(policy))
        .unwrap();
    supervisor
}

fn state_after(policy: RestartPolicy, reason: ExitReason) -> Option<ChildState> {
    let mut supervisor = supervisor_with_policy(policy);
    supervisor.handle_child_exit(&"child".to_string(), &reason).unwrap();
    supervisor.child_state(&"child".to_string())
}

fn boom() -> ExitReason {
    ExitReason::Error("boom".to_string())
}

#[test]
fn knob_restart_policy_changes_restart_decision() {
    assert_eq!(
        state_after(RestartPolicy::Permanent, ExitReason::Normal),
        Some(ChildState::Restarting),
        "Permanent must restart on Normal exit"
    );
    assert_eq!(
        state_after(RestartPolicy::Temporary, boom()),
        Some(ChildState::Stopped),
        "Temporary must not restart on Error exit"
    );
    assert_eq!(
        state_after(RestartPolicy::Transient, boom()),
        Some(ChildState::Restarting)
    );
    assert_eq!(
        state_after(RestartPolicy::Transient, ExitReason::Normal),
        Some(ChildState::Stopped),
        "Transient must not restart on Normal exit"
    );
}

#[test]
fn restarts_respect_max_restarts() {
    for k in [1u32, 2, 5, 11, 50] {
        for r in 0..=10u32 {
            let mut supervisor = Supervisor::new(r);
            let name = "child".to_string();
            supervisor
                .start_child(ChildSpec::new("child".to_string()).restart_policy(RestartPolicy::Permanent))
                .unwrap();
            for crash in 1..=k {
                let result = supervisor.handle_child_exit(&name, &boom());
                if r != 0 && crash > r {
                    assert_eq!(result, Err(Error::actor("restart budget exhausted")));
                    assert_eq!(supervisor.child_state(&name), Some(ChildState::Stopped));
                    break;
                }
                assert!(result.is_ok(), "restart {crash} should be allowed");
            }
            let expected = if r == 0 { k } else { k.min(r) };
            assert_eq!(supervisor.total_restarts(), expected as u64);
        }
    }
}

#[test]
fn names_are_unique_and_known() {
    let mut supervisor = supervisor_with_policy(RestartPolicy::Permanent);
    assert_eq!(
        supervisor.start_child(ChildSpec::new("child".to_string())),
        Err(Error::actor("child already exists"))
    );
    let stranger = "stranger".to_string();
    assert_eq!(
        supervisor.handle_child_exit(&stranger, &ExitReason::Normal),
        Err(Error::actor("unknown child"))
    );
    assert_eq!(
        supervisor.mark_child_running(&stranger),
        Err(Error::actor("unknown child"))
    );
    assert_eq!(supervisor.child_state(&stranger), None);
}

#[test]
fn one_for_one_leaves_the_others_alone() {
    let mut supervisor = Supervisor::new(1);
    assert_eq!(supervisor.max_restarts(), 1);
    let (a, b) = ("a".to_string(), "b".to_string());
    supervisor.start_child(ChildSpec::new("a".to_string())).unwrap();
    supervisor.start_child(ChildSpec::new("b".to_string())).unwrap();
    supervisor.handle_child_exit(&a, &boom()).unwrap();
    assert_eq!(supervisor.child_state(&a), Some(ChildState::Restarting));
    assert_eq!(supervisor.child_state(&b), Some(ChildState::Running));
    supervisor.mark_child_running(&a).unwrap();
    assert_eq!(supervisor.child_state(&a), Some(ChildState::Running));
    assert!(supervisor.handle_child_exit(&a, &boom()).is_err());
    supervisor.handle_child_exit(&b, &boom()).unwrap();
    assert_eq!(supervisor.total_restarts(), 2);
}
