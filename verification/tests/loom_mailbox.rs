use actor_kit::loom_mailbox::{
    model_broken_recv_loses_wakeup, model_capacity_gate_two_senders,
    model_permit_conservation_roundtrip, model_recv_no_lost_wakeup,
    model_two_senders_receiver_drains_via_handshake, DeliveryReport, LoomMailbox, RecvStep,
    SendStep, WakeupGate,
};
use actor_kit::rounding::scale_to_four_fifths;

/// All schedules of `len` turns among `threads` threads.
fn schedules(threads: usize, len: usize) -> Vec<Vec<usize>> {
    let mut all = vec![Vec::new()];
    for _ in 0..len {
        let mut longer = Vec::new();
        for schedule in &all {
            for turn in 0..threads {
                let mut next: Vec<usize> = schedule.clone();
                next.push(turn);
                longer.push(next);
            }
        }
        all = longer;
    }
    all
}

fn check_capacity_gate(schedule: &[usize]) {
    let report = model_capacity_gate_two_senders(schedule);
    assert!(report.total <= 2, "capacity gate raced through");
    assert_eq!(report.len, report.total, "size counter must equal deliveries");
    assert_eq!(report.backpressured, report.total >= 1);
    assert_eq!(report.drained, report.total);
    assert!(report.fully_drained, "permit/size conservation broken");
    assert!(report.fresh_send, "post-drain send must succeed");
}

fn check_both(report: DeliveryReport) {
    let mut got = report.received;
    got.sort_unstable();
    assert_eq!(got, vec![1, 2], "each message delivered exactly once");
    assert!(report.fully_drained, "permit/size conservation broken");
}

#[test]
fn loom_capacity_gate_two_senders() {
    for schedule in schedules(2, 12) {
        check_capacity_gate(&schedule);
    }
}

#[test]
fn loom_permit_conservation_roundtrip() {
    for schedule in schedules(3, 8) {
        check_both(model_permit_conservation_roundtrip(&schedule));
    }
}

#[test]
fn loom_recv_no_lost_wakeup() {
    for schedule in schedules(2, 13) {
        let report = model_recv_no_lost_wakeup(&schedule);
        assert_eq!(report.received, vec![1]);
        assert!(report.fully_drained);
    }
}

#[test]
fn loom_two_senders_receiver_drains_via_handshake() {
    for schedule in schedules(3, 8) {
        check_both(model_two_senders_receiver_drains_via_handshake(&schedule));
    }
}

#[test]
fn loom_mailbox_capacity_gate_two_senders() {
    check_capacity_gate(&[]);
    check_capacity_gate(&[0, 1, 0, 1, 0, 1, 0, 1, 0, 1, 0, 1]);
    check_capacity_gate(&[1, 1, 1, 1, 1, 1, 1, 1, 1, 1, 0]);
}

#[test]
fn loom_mailbox_permit_conservation_roundtrip() {
    check_both(model_permit_conservation_roundtrip(&[]));
    check_both(model_permit_conservation_roundtrip(&[2; 16]));
    check_both(model_permit_conservation_roundtrip(&[0, 1, 2, 0, 1, 2, 0, 1, 2, 0, 1, 2, 2, 2]));
}

#[test]
fn loom_mailbox_recv_no_lost_wakeup() {
    for schedule in [vec![], vec![1, 1, 0, 0, 0, 0, 0], vec![1, 0, 0, 0, 0, 0, 1]] {
        assert_eq!(model_recv_no_lost_wakeup(&schedule).received, vec![1]);
    }
}

#[test]
fn loom_mailbox_two_senders_receiver_drains_via_handshake() {
    check_both(model_two_senders_receiver_drains_via_handshake(&[]));
    check_both(model_two_senders_receiver_drains_via_handshake(&[2, 2, 0, 0, 0, 1, 1, 1, 2, 2, 0, 0]));
}

#[test]
fn broken_handshake_can_lose_the_wakeup() {
    // The receiver looks, the sender sends and notifies, the receiver
    // registers and waits.
    let lost = model_broken_recv_loses_wakeup(&[1, 0, 0, 0, 0, 0, 1]);
    assert_eq!(lost.received, Vec::<usize>::new());
    assert!(!lost.fully_drained);
    // With the sender out of the way first, nothing is lost.
    let found = model_broken_recv_loses_wakeup(&[0, 0, 0, 0, 0]);
    assert_eq!(found.received, vec![1]);
    assert!(found.fully_drained);
    // Registering between the enqueue and the notification is in time.
    let woken = model_broken_recv_loses_wakeup(&[1, 0, 0, 0, 1, 0, 0]);
    assert_eq!(woken.received, vec![1]);
}

#[test]
fn the_gate_wakes_only_those_registered() {
    let mut gate = WakeupGate::new();
    assert!(!gate.wait());
    assert!(!gate.notify_waiters());
    gate.enable();
    assert!(gate.wait());
    assert!(gate.notify_waiters());
    assert!(!gate.wait());
}

#[test]
fn uninterrupted_sends_and_receives() {
    let mut mailbox = LoomMailbox::with_capacity(5);
    for m in 10..15 {
        assert!(mailbox.try_send(m));
    }
    assert!(!mailbox.try_send(99), "full");
    assert_eq!(mailbox.len(), 5);
    assert_eq!(mailbox.permits(), 0);
    assert!(mailbox.is_backpressured());
    assert!(!mailbox.is_fully_drained());
    assert_eq!(mailbox.try_recv(), Some(10));
    assert_eq!(mailbox.recv(), Some(11));
    assert!(mailbox.is_backpressured());
    assert_eq!(mailbox.try_recv(), Some(12));
    assert_eq!(mailbox.try_recv(), Some(13));
    assert!(!mailbox.is_backpressured(), "below half of four");
    assert_eq!(mailbox.try_recv(), Some(14));
    assert_eq!(mailbox.recv(), None);
    assert!(mailbox.is_waiting());
    assert!(mailbox.is_fully_drained());
    assert!(mailbox.try_send(7));
    assert!(!mailbox.is_waiting(), "the send took the registration");
}

#[test]
fn a_mailbox_without_capacity_refuses() {
    let mut mailbox = LoomMailbox::with_capacity(0);
    assert!(!mailbox.try_send(1));
    assert_eq!(mailbox.try_recv(), None);
    assert!(mailbox.is_fully_drained());
}

#[test]
fn steps_can_be_taken_one_at_a_time() {
    let mut mailbox = LoomMailbox::with_capacity(1);
    let permitted = mailbox.send_step(8, SendStep::Idle);
    assert_eq!(permitted, SendStep::Permitted);
    // The permit is gone, the message not there yet.
    assert_eq!(mailbox.send_step(9, SendStep::Idle), SendStep::Refused);
    assert_eq!(mailbox.recv_step(RecvStep::Idle), RecvStep::Empty);
    let counted = mailbox.send_step(8, permitted);
    assert_eq!(counted, SendStep::Counted(1));
    assert_eq!(mailbox.len(), 1);
    let enqueued = mailbox.send_step(8, counted);
    assert_eq!(enqueued, SendStep::Enqueued(1));
    assert_eq!(mailbox.recv_step(RecvStep::Idle), RecvStep::Popped(8));
    assert_eq!(mailbox.len(), 1, "dequeued and still counted");
}

#[test]
fn the_schedule_decides_the_order() {
    // Sender 1 sends before sender 0 does, or after.
    let late: [usize; 5] = [1; 5];
    let early: [usize; 5] = [0; 5];
    assert_eq!(model_two_senders_receiver_drains_via_handshake(&late).received, vec![2, 1]);
    assert_eq!(model_two_senders_receiver_drains_via_handshake(&early).received, vec![1, 2]);
    assert_eq!(model_permit_conservation_roundtrip(&late).received, vec![2, 1]);
    assert_eq!(model_permit_conservation_roundtrip(&early).received, vec![1, 2]);
}

#[test]
fn thresholds_round_as_single_precision_does() {
    let expected = |n: usize| (n as f32 * 0.8) as usize;
    for n in (0..70_000).chain(5_242_870..5_242_900).chain(16_777_200..16_777_300) {
        assert_eq!(scale_to_four_fifths(n), expected(n), "{n}");
    }
    let mut n: usize = 1;
    for step in 0..4_000usize {
        n = n.wrapping_mul(6_364_136_223_846_793_005).wrapping_add(step);
        let m = n >> (step % 64);
        assert_eq!(scale_to_four_fifths(m), expected(m), "{m}");
    }
    assert_eq!(scale_to_four_fifths(usize::MAX), expected(usize::MAX));
}
