use actor_kit::sim::names::{actor_name, sim_actor_id, supervisor_name};
use actor_kit::sim::world::Plan;
use actor_kit::sim::{
    fnv1a, FaultConfig, InjectionRate, Probability, RejectReason, SchedulingPolicy, Sim, SimConfig,
    TraceOp,
};
use actor_kit::{MailboxConfig, Priority};

/// The threshold of a probability.
fn prob(p: f64) -> Probability {
    if p <= 0.0 {
        Probability::Never
    } else {
        Probability::Below((p * (1u64 << 53) as f64).ceil() as u64)
    }
}

/// A configuration with every fault on.
fn chaos_config() -> SimConfig {
    let mut config = SimConfig::default();
    config.messages = 512;
    config.faults = FaultConfig::chaos(prob(0.02));
    config
}

fn small(actors: u64, messages: u64) -> SimConfig {
    let mut config = SimConfig::default();
    config.actors = actors;
    config.messages = messages;
    config.policy = SchedulingPolicy::Fifo;
    config
}

fn plain(to: u64) -> Plan {
    Plan {
        to,
        len: 1,
        priority: Priority::Normal,
        rejected: false,
        delay: 0,
        duplicate: false,
    }
}

#[test]
fn fnv1a_known_vectors() {
    assert_eq!(fnv1a(b""), 0xcbf2_9ce4_8422_2325);
    assert_eq!(fnv1a(b"a"), 0xaf63_dc4c_8601_ec8c);
    assert_eq!(fnv1a(b"foobar"), 0x8594_4171_f739_67e8);
}

#[test]
fn sim_actor_ids_deterministic_and_unique() {
    assert_eq!(sim_actor_id(3, 0), sim_actor_id(3, 0));
    assert_ne!(sim_actor_id(1, 0), sim_actor_id(2, 0));
    assert_ne!(sim_actor_id(1, 0), sim_actor_id(1, 1));
}

#[test]
fn names_spell_out_the_numbers() {
    assert_eq!(sim_actor_id(3, 5).0, (3u128 << 64) | 0xA77C_70B1_5160_0005);
    assert_eq!(actor_name(12, 3), "sim-12-v3");
    assert_eq!(supervisor_name(907), "sim-907");
    assert_eq!(actor_name(0, u64::MAX), "sim-0-v18446744073709551615");
}

#[test]
fn fault_free_sim_quiesces_exactly_once() {
    let mut config = SimConfig::default();
    config.actors = 4;
    config.messages = 256;
    let mut sim = Sim::with_config(1, config);
    let outcome = sim.run_to_quiescence();
    assert!(outcome.quiesced, "fault-free workload must drain");
    assert_eq!(outcome.stats.injected, 256);
    assert_eq!(outcome.stats.processed, 256, "exactly-once end to end");
    assert_eq!(outcome.stats.rejected + outcome.stats.dropped, 0);
    // Every actor processed its Start.
    assert_eq!(outcome.stats.system_processed, 4);
}

#[test]
fn deterministic_same_seed_same_hash() {
    let build = || {
        let mut config = SimConfig::default();
        config.messages = 128;
        config.faults = FaultConfig::chaos(prob(0.05));
        Sim::with_config(777, config)
    };
    let a = build().run_to_quiescence();
    let b = build().run_to_quiescence();
    assert_eq!(a.trace_hash, b.trace_hash);
    assert_eq!(a.trace_ops, b.trace_ops);
    assert_eq!(a.stats, b.stats);
}

#[test]
fn chaotic_sim_quiesces_with_restart_accounting() {
    let mut config = SimConfig::default();
    config.messages = 512;
    config.faults = FaultConfig::chaos(prob(0.02));
    let mut sim = Sim::with_config(9, config);
    let outcome = sim.run_to_quiescence();
    assert!(outcome.quiesced);
    assert!(outcome.stats.crashed > 0, "chaos config must crash actors");
    assert!(outcome.stats.processed > 0);
}

#[test]
fn sim_invariants_hold_across_500_seeds() {
    for seed in 0..500u64 {
        let mut sim = Sim::with_config(seed, chaos_config());
        let outcome = sim.run_to_quiescence();
        assert!(
            outcome.quiesced,
            "seed {seed}: sim did not quiesce — replay with Sim::with_config({seed}, ..)"
        );
        assert!(sim.audit_counts(), "seed {seed}");
        assert!(sim.audit_identities(), "seed {seed}");
    }
}

#[test]
fn sim_determinism_same_seed_same_trace() {
    // Determinism contract: identical seed + workload ⇒ identical trace.
    for seed in [7u64, 42, 9_999] {
        let mut a = Sim::with_config(seed, chaos_config());
        let out_a = a.run_to_quiescence();
        let mut b = Sim::with_config(seed, chaos_config());
        let out_b = b.run_to_quiescence();
        assert_eq!(
            a.trace_hash(),
            b.trace_hash(),
            "seed {seed}: traces diverge — determinism contract violated"
        );
        assert_eq!(out_a.stats.processed, out_b.stats.processed);
    }
}

#[test]
fn sim_delivery_accounting_closes_across_seeds() {
    // Nothing may vanish: every injected message ends up processed, rejected,
    // or dropped.
    for seed in 500..560u64 {
        let mut sim = Sim::with_config(seed, chaos_config());
        let outcome = sim.run_to_quiescence();
        let s = &outcome.stats;
        assert!(
            s.processed + s.rejected + s.dropped >= s.injected,
            "seed {seed}: messages vanished — injected {} vs processed {} + rejected {} + dropped {}",
            s.injected,
            s.processed,
            s.rejected,
            s.dropped
        );
    }
}

#[test]
fn chaotic_traces_are_those_expected() {
    for (seed, steps, hash, ops, processed, crashed) in [
        (7u64, 106u64, 0xff7b_116f_6f32_682fu64, 1355usize, 449u64, 8u64),
        (42, 113, 0x4cdb_abba_fbe4_37f6, 1413, 473, 10),
        (9_999, 107, 0xcd88_fb96_e9c9_704a, 1372, 497, 6),
    ] {
        let outcome = Sim::with_config(seed, chaos_config()).run_to_quiescence();
        assert_eq!(outcome.seed, seed);
        assert_eq!(outcome.steps, steps);
        assert_eq!(outcome.trace_ops, ops);
        assert_eq!(outcome.trace_hash, hash);
        assert_eq!(outcome.stats.processed, processed);
        assert_eq!(outcome.stats.crashed, crashed);
    }
}

#[test]
fn backpressure_and_escalation_are_those_expected() {
    let mut config = SimConfig::default();
    config.messages = 300;
    config.mailbox = MailboxConfig {
        capacity: 4,
        priority_queue: true,
        backpressure_threshold: 800,
    };
    config.policy = SchedulingPolicy::RoundRobin;
    config.faults = FaultConfig::chaos(prob(0.1));
    config.max_restarts = 2;
    config.injection_rate = InjectionRate {
        whole: 6,
        fraction: prob(0.5),
    };
    config.processing_per_tick = 2;
    config.blocked_retries_per_tick = 3;
    let outcome = Sim::with_config(3, config).run_to_quiescence();
    assert!(outcome.quiesced);
    assert_eq!(outcome.steps, 92);
    assert_eq!(outcome.trace_ops, 886);
    assert_eq!(outcome.trace_hash, 0x477e_42fb_d099_ed1c);
    let s = outcome.stats;
    assert_eq!((s.injected, s.rejected, s.delivered, s.processed), (300, 158, 161, 108));
    assert_eq!((s.crashed, s.restarted, s.escalated, s.dropped), (12, 8, 4, 41));
    assert_eq!((s.blocked, s.unblocked, s.delayed, s.duplicates), (273, 68, 19, 5));
    assert_eq!(s.system_processed, 12);
}

#[test]
fn the_first_rounds_are_those_expected() {
    let mut config = SimConfig::default();
    config.policy = SchedulingPolicy::Fifo;
    let mut sim = Sim::with_config(42, config);
    assert_eq!(sim.trace().len(), 4);
    let outcome = sim.run(2);
    assert_eq!(outcome.steps, 2);
    assert!(!outcome.quiesced);
    assert_eq!(
        &sim.trace()[4..12],
        &[
            TraceOp::Send { mid: 0, to: 3 },
            TraceOp::Deliver { first: 0, len: 1, to: 3 },
            TraceOp::Send { mid: 1, to: 2 },
            TraceOp::Deliver { first: 1, len: 1, to: 2 },
            TraceOp::Send { mid: 2, to: 0 },
            TraceOp::Deliver { first: 2, len: 1, to: 0 },
            TraceOp::Send { mid: 3, to: 3 },
            TraceOp::Deliver { first: 3, len: 1, to: 3 },
        ]
    );
    assert_eq!(sim.trace()[16], TraceOp::BatchSend { first: 4, len: 2, to: 2 });
    assert_eq!(sim.trace_hash(), 0x5f1a_fee1_66d8_78c9);
    assert_eq!(sim.clock().now().as_micros(), 2_000);
    assert_eq!(sim.executor().record_count(), 0);
}

#[test]
fn runs_can_be_interrupted() {
    let mut whole = Sim::with_config(11, chaos_config());
    let mut parts = Sim::with_config(11, chaos_config());
    let a = whole.run(40);
    parts.run(15);
    let b = parts.run(25);
    assert_eq!(a.trace_hash, b.trace_hash);
    assert_eq!(a.stats, b.stats);
    let done = parts.run_to_quiescence();
    assert!(done.quiesced);
    let again = parts.run(100);
    assert_eq!(again.steps, 0);
    assert_eq!(again.trace_hash, done.trace_hash);
}

#[test]
fn sims_drain_within_the_bound() {
    // (13 messages + actors) * (longest delay + 2 + 1)
    for seed in 0..20 {
        let outcome = Sim::with_config(seed, chaos_config()).run_to_quiescence();
        assert!(outcome.steps <= (13 * 512 + 4) * 11);
    }
}

#[test]
fn a_batch_larger_than_every_mailbox_stalls() {
    let mut config = small(1, 3);
    config.mailbox = MailboxConfig::new(2);
    let mut sim = Sim::with_config(1, config);
    sim.carry_out(Plan { len: 3, ..plain(0) });
    let outcome = sim.run(1_000);
    assert!(!outcome.quiesced);
    assert_eq!(outcome.stats.delivered, 1, "only the start message");
    assert!(outcome.stats.blocked > 900);
}

#[test]
fn a_rejected_event_is_lost() {
    let mut sim = Sim::with_config(3, small(1, 2));
    sim.carry_out(Plan { len: 2, rejected: true, ..plain(0) });
    let s = sim.stats();
    assert_eq!((s.injected, s.rejected, s.delivered), (2, 2, 1));
    assert_eq!(
        &sim.trace()[1..],
        &[
            TraceOp::BatchSend { first: 0, len: 2, to: 0 },
            TraceOp::Reject { mid: 0, to: 0, reason: RejectReason::Fault },
            TraceOp::Reject { mid: 1, to: 0, reason: RejectReason::Fault },
        ]
    );
    assert!(sim.run_to_quiescence().quiesced);
    assert!(sim.audit_identities());
}

#[test]
fn a_duplicate_is_processed_twice() {
    let mut config = small(1, 1);
    config.faults.duplicate_prob = prob(0.5);
    let mut sim = Sim::with_config(3, config);
    sim.carry_out(Plan { duplicate: true, ..plain(0) });
    let outcome = sim.run_to_quiescence();
    assert!(outcome.quiesced);
    assert_eq!(outcome.stats.processed, 2);
    assert_eq!(outcome.stats.duplicates, 1);
    assert_eq!(outcome.stats.delayed, 1);
}

#[test]
fn a_delayed_event_lands_at_its_tick() {
    let mut sim = Sim::with_config(3, small(1, 1));
    sim.carry_out(Plan { delay: 5, ..plain(0) });
    sim.run(4);
    assert_eq!(sim.stats().delayed, 0);
    sim.run(1);
    assert_eq!(sim.stats().delayed, 1);
    assert!(sim.run(1).quiesced);
    assert_eq!(sim.clock().now().as_micros(), 5_000);
}

#[test]
fn crashes_restart_until_the_budget_is_used_up() {
    let mut config = small(2, 8);
    config.max_restarts = 1;
    let mut sim = Sim::with_config(3, config);
    assert!(sim.step_as(true), "the start message of the first actor");
    assert!(sim.step_as(true), "the start message of the second actor");
    assert_eq!(sim.stats().crashed, 0, "system messages do not crash");
    assert!(!sim.step_as(true), "nothing is ready");
    sim.carry_out(plain(0));
    sim.carry_out(Plan { priority: Priority::High, ..plain(0) });
    assert!(sim.step_as(true));
    let s = sim.stats();
    assert_eq!((s.crashed, s.restarted, s.escalated, s.dropped), (1, 1, 0, 2));
    // The urgent message crashed; the other one is stale now.
    assert!(sim.step_as(false));
    assert_eq!(sim.trace().last(), Some(&TraceOp::Discard { first: 0, len: 1, to: 0 }));
    assert!(sim.step_as(false), "the start message of the second incarnation");
    sim.carry_out(plain(0));
    assert!(sim.step_as(true));
    let s = sim.stats();
    assert_eq!((s.crashed, s.restarted, s.escalated, s.dropped), (2, 1, 1, 3));
    assert_eq!(
        &sim.trace()[sim.trace().len() - 3..],
        &[
            TraceOp::Crash { to: 0, dropped: 1 },
            TraceOp::Restart { to: 0, allowed: false },
            TraceOp::Kill { to: 0, dropped: 0 },
        ]
    );
    assert_eq!(sim.registry().get_state(&sim_actor_id(0, 1)), None);
    // Mail to the dead is rejected.
    sim.carry_out(plain(0));
    assert_eq!(
        sim.trace().last(),
        Some(&TraceOp::Reject { mid: 3, to: 0, reason: RejectReason::DeadTarget })
    );
    let outcome = sim.run_to_quiescence();
    assert!(outcome.quiesced);
    assert!(sim.audit_counts());
    assert!(sim.audit_identities());
}

#[test]
fn a_full_mailbox_parks_and_retries() {
    let mut config = small(1, 1);
    config.mailbox = MailboxConfig::new(1);
    let mut sim = Sim::with_config(3, config);
    // The start message fills the mailbox.
    sim.carry_out(plain(0));
    assert_eq!(sim.trace().last(), Some(&TraceOp::Blocked { first: 0, len: 1, to: 0 }));
    assert_eq!(sim.stats().blocked, 1);
    assert!(sim.step_as(false));
    let outcome = sim.run(1);
    assert_eq!(outcome.stats.unblocked, 1);
    assert!(sim.run_to_quiescence().quiesced);
    assert_eq!(sim.stats().processed, 1);
}

#[test]
fn the_configuration_can_be_changed_between_runs() {
    let mut sim = Sim::new(5);
    sim.run(3);
    sim.config_mut().policy = SchedulingPolicy::RoundRobin;
    sim.config_mut().actors = 1;
    sim.config_mut().messages = 1;
    let outcome = sim.run_to_quiescence();
    assert!(outcome.quiesced);
    assert_eq!(outcome.stats.processed, 256, "the shape is fixed at construction");
}

#[test]
fn entries_are_encoded_with_tag_and_fields() {
    let mut buf = vec![0xFFu8];
    TraceOp::Reject { mid: 0x0102, to: 3, reason: RejectReason::DeadTarget }.encode_into(&mut buf);
    assert_eq!(buf.len(), 1 + 1 + 24);
    assert_eq!(&buf[..4], &[0xFF, 3, 0x02, 0x01]);
    assert_eq!(buf[10], 3);
    assert_eq!(buf[18], 1);
    let mut buf = Vec::new();
    TraceOp::Restart { to: 9, allowed: true }.encode_into(&mut buf);
    assert_eq!(buf, vec![10, 9, 0, 0, 0, 0, 0, 0, 0, 1, 0, 0, 0, 0, 0, 0, 0]);
    let mut buf = Vec::new();
    TraceOp::Kill { to: 1, dropped: 256 }.encode_into(&mut buf);
    assert_eq!(buf, vec![11, 1, 0, 0, 0, 0, 0, 0, 0, 0, 1, 0, 0, 0, 0, 0, 0]);
}

#[test]
fn counters_agree_with_the_trace() {
    let mut config = chaos_config();
    config.max_restarts = 1;
    config.faults.crash_prob = prob(0.1);
    let mut sim = Sim::with_config(21, config);
    let outcome = sim.run_to_quiescence();
    let (mut injected, mut rejected, mut processed, mut system) = (0, 0, 0, 0);
    let (mut crashed, mut restarted, mut refused, mut killed, mut dropped) = (0, 0, 0, 0, 0);
    for op in sim.trace() {
        match *op {
            TraceOp::Send { .. } => injected += 1,
            TraceOp::BatchSend { len, .. } => injected += len,
            TraceOp::Reject { .. } => rejected += 1,
            TraceOp::Process { .. } => processed += 1,
            TraceOp::ProcessSystem { .. } => system += 1,
            TraceOp::Crash { dropped: n, .. } => {
                crashed += 1;
                dropped += n;
            }
            TraceOp::Restart { allowed: true, .. } => restarted += 1,
            TraceOp::Restart { allowed: false, .. } => refused += 1,
            TraceOp::Kill { dropped: n, .. } => {
                killed += 1;
                dropped += n;
            }
            _ => {}
        }
    }
    let s = outcome.stats;
    assert_eq!((s.injected, s.rejected), (injected, rejected));
    assert_eq!((s.processed, s.system_processed), (processed, system));
    assert_eq!((s.crashed, s.restarted), (crashed, restarted));
    assert_eq!((s.escalated, s.escalated, s.dropped), (refused, killed, dropped));
    assert!(s.escalated > 0 && s.restarted > 0);
}

#[test]
fn messages_are_processed_once_by_whom_they_were_sent_to() {
    let mut config = chaos_config();
    config.faults.duplicate_prob = Probability::Never;
    let mut sim = Sim::with_config(22, config);
    sim.run_to_quiescence();
    let mut target = vec![None; 512];
    let mut seen = vec![false; 512];
    for op in sim.trace() {
        match *op {
            TraceOp::Send { mid, to } => {
                assert!(target[mid as usize].is_none());
                target[mid as usize] = Some(to);
            }
            TraceOp::BatchSend { first, len, to } => {
                for mid in first..first + len {
                    assert!(target[mid as usize].is_none());
                    target[mid as usize] = Some(to);
                }
            }
            TraceOp::Process { mid, to } => {
                assert_eq!(target[mid as usize], Some(to));
                assert!(!seen[mid as usize]);
                seen[mid as usize] = true;
            }
            _ => {}
        }
    }
}

#[test]
fn the_shape_is_settled_at_construction() {
    let mut plain = Sim::with_config(23, chaos_config());
    let mut changed = Sim::with_config(23, chaos_config());
    changed.config_mut().actors = 99;
    changed.config_mut().messages = 7;
    changed.config_mut().mailbox = MailboxConfig::new(1);
    let a = plain.run_to_quiescence();
    let b = changed.run_to_quiescence();
    assert_eq!(a.trace_hash, b.trace_hash);
    assert_eq!(a.stats, b.stats);
    assert_eq!(a.steps, b.steps);
}

#[test]
fn the_clock_reads_one_tick_per_round() {
    let mut sim = Sim::with_config(24, chaos_config());
    let first = sim.run(9);
    assert_eq!(sim.clock().now().as_micros(), 1_000 * first.steps);
    let second = sim.run_to_quiescence();
    assert_eq!(sim.clock().now().as_micros(), 1_000 * (first.steps + second.steps));
}

#[test]
fn unused_delay_bounds_do_not_matter() {
    let mut config = small(2, 20);
    config.faults.delay_ticks_min = 0;
    config.faults.delay_ticks_max = u64::MAX;
    let outcome = Sim::with_config(25, config).run_to_quiescence();
    assert!(outcome.quiesced);
    assert_eq!(outcome.stats.processed, 20);
}

#[test]
fn a_run_takes_only_the_rounds_it_needs() {
    let mut sim = Sim::new(1);
    let outcome = sim.run(u64::MAX);
    assert!(outcome.quiesced);
    assert_eq!(outcome.steps, 56);
    assert_eq!(outcome.trace_hash, 0xf2e1_8525_d745_8608);
}

#[test]
fn limits_can_be_lowered_where_the_audits_still_pass() {
    let mut sim = Sim::with_config(26, small(2, 30));
    sim.run(2);
    sim.config_mut().max_restarts = 1;
    let outcome = sim.run_to_quiescence();
    assert!(outcome.quiesced);
    assert_eq!(outcome.stats.processed, 30);
}

#[test]
fn a_run_without_room_is_not_begun() {
    let mut deserted = Sim::with_config(1, small(0, 5));
    assert!(deserted.try_run(1).is_none());
    assert!(deserted.try_run_to_quiescence().is_none());
    assert_eq!(deserted.stats().injected, 0);

    let mut sim = Sim::new(1);
    assert!(sim.try_run(u64::MAX).is_none(), "might park too often");
    assert_eq!(sim.trace().len(), 4);
    let first = sim.try_run(10).unwrap();
    assert_eq!(first.steps, 10);
    let rest = sim.try_run_to_quiescence().unwrap();
    assert!(rest.quiesced);
    assert_eq!(rest.trace_hash, 0xf2e1_8525_d745_8608);

    let mut lowered = Sim::new(1);
    lowered.config_mut().max_restarts = 1;
    assert!(lowered.try_run(1).is_none(), "the supervisor grants three");
}
