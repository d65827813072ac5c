//! What runs guarantee.
use crate::sim::calm::lemma_round_kept;
use crate::sim::chronicle::{
    answers, crashes, drops, is_due_to_send, kills, rejects, runs, runs_of, sends, sends_of,
    sends_to, system_runs,
};
use crate::sim::clock::saturating_sum;
use crate::sim::config::SimConfig;
use crate::sim::drain::{law_drains, weight, MESSAGE_WEIGHT};
use crate::sim::genesis::{config_fits, lemma_spawn_first_inv};
use crate::sim::headroom::{can_run_for, is_clear_ahead, lemma_ahead, lemma_one_round, limits_agree};
use crate::sim::names::DISTINCT_INCARNATIONS;
use crate::sim::parcels::{lemma_pending_nonneg, Parcel};
use crate::sim::rounds::{can_run, lemma_round_inv, lemma_run_inv};
use crate::sim::soundness::{apps, granted, holds, itself, starts};
use crate::sim::trace::TraceOp;
use crate::sim::upkeep::lemma_viable_alive;
use crate::sim::world::{longest_delay, World, MAX_BATCH, TICK_MICROS};
use crate::sim::{
    account_ok, counts_ok, identities_ok, identity_ok, reports, Sim, SimOutcome,
};
use crate::sums::{
    lemma_sum_at_most, lemma_sum_nonneg, lemma_sum_of_ones, lemma_sum_remove, lemma_sum_same,
    never_negative, sum_of,
};
use crate::supervisor::restarts_of;
use vstd::prelude::*;

verus! {

/// The audit of the counts never fails: in every reachable world each live
/// actor's mailbox holds what was delivered and neither processed nor dropped,
/// and no actor was restarted past its budget.
pub proof fn law_counts_ok(w: World)
    requires
        w.inv(Seq::empty()),
        limits_agree(w),
    ensures
        counts_ok(w),
{
    assert forall|o: int| 0 <= o < w.ledger.len() implies #[trigger] account_ok(w, o) by {
        assert(w.actor_balanced(o));
    }
    if w.config.max_restarts > 0 {
        lemma_total_restarts(w);
        let n = w.actors.len() as int;
        let a = w.supervisor.max_restarts as int;
        let b = w.config.max_restarts as int;
        assert(a * n <= b * n) by (nonlinear_arith)
            requires
                a <= b,
                n >= 0,
        ;
        assert forall|o: int| 0 <= o < w.actors.len() implies sum_of(
            w.trace,
            #[trigger] granted(o),
        ) <= w.config.max_restarts by {
            assert(w.actor_sound(o));
        }
    }
}

/// Where restarts are limited, all actors together are restarted at most as
/// often as their budgets allow.
proof fn lemma_total_restarts(w: World)
    requires
        w.sound(),
        w.supervisor.max_restarts > 0,
    ensures
        w.supervisor.total_restarts() <= w.supervisor.max_restarts * w.actors.len(),
{
    assert forall|i: int| 0 <= i < w.supervisor.children.len() implies #[trigger] restarts_of()(
        w.supervisor.children[i],
    ) <= w.supervisor.max_restarts by {
        assert(w.actor_sound(i));
    }
    lemma_sum_at_most(w.supervisor.children, restarts_of(), w.supervisor.max_restarts as int);
}

/// The audit of the identities never fails: in every reachable world that is
/// quiescent each injected message was processed or is accounted lost, and was
/// processed once where nothing is duplicated.
pub proof fn law_identities_ok(w: World)
    requires
        w.inv(Seq::empty()),
        limits_agree(w),
        w.quiescent(),
    ensures
        identities_ok(w),
{
    assert forall|i: int| 0 <= i < w.next_mid implies #[trigger] identity_ok(w, i) by {
        assert(w.mid_accounted(Seq::empty(), i));
        lemma_nothing_pending(w, holds(i as u64));
    }
}

/// Nothing is under way in a quiescent world.
proof fn lemma_nothing_pending(w: World, f: spec_fn(Parcel) -> int)
    requires
        w.quiescent(),
    ensures
        w.total(Seq::empty(), f) == 0,
        w.pending(f) == 0,
        w.unsent(f) == 0,
        w.ready.tasks() == Seq::<crate::sim::scheduler::SimTaskView>::empty(),
{
    assert(w.ready.tasks() =~= Seq::empty());
}

/// The limits in the configuration still agree with the world after a round.
pub proof fn lemma_limits_kept(w: World)
    requires
        w.inv(Seq::empty()),
        can_run(w),
        limits_agree(w),
    ensures
        limits_agree(w.round()),
{
    lemma_round_inv(w);
    if w.config.faults.duplicate_prob is Never {
        lemma_round_kept(w);
    }
}

/// Same seed, same configuration, same run: two simulations made from one seed
/// and one configuration, whatever its faults and its policy, do alike in `n`
/// rounds, and their outcomes say the same.
pub proof fn law_deterministic(
    seed: u64,
    config: SimConfig,
    n: nat,
    a: Sim,
    b: Sim,
    x: SimOutcome,
    y: SimOutcome,
)
    requires
        a@ == World::created(seed, config).run(n),
        b@ == World::created(seed, config).run(n),
        reports(World::created(seed, config), n, x),
        reports(World::created(seed, config), n, y),
    ensures
        a@.trace == b@.trace,
        a@.stats == b@.stats,
        x.trace_hash == y.trace_hash,
        x.trace_ops == y.trace_ops,
        x.stats@ == y.stats@,
        x.steps == y.steps,
        x.quiesced == y.quiesced,
{
}

/// A run can be interrupted: running `a` rounds and then `b` more is running
/// `a + b` rounds.
pub proof fn law_run_in_parts(w: World, a: nat, b: nat)
    ensures
        w.run(a).run(b) == w.run(a + b),
        w.rounds(a) + w.run(a).rounds(b) == w.rounds(a + b),
    decreases a,
{
    if a > 0 && !w.quiescent() {
        law_run_in_parts(w.round(), (a - 1) as nat, b);
    }
}

/// A run leaves room for another: where `a + b` rounds can be run, `b` can
/// still be run after `a`.
pub proof fn law_run_leaves_room(w: World, a: nat, b: nat)
    requires
        w.inv(Seq::empty()),
        can_run_for(w, a + b),
    ensures
        can_run_for(w.run(a), b),
{
    lemma_ahead(w, a + b);
    lemma_run_inv(w, a);
    lemma_clear_after(w, a, b);
}

/// After a part of a run the rest is clear ahead.
proof fn lemma_clear_after(w: World, a: nat, b: nat)
    requires
        w.inv(Seq::empty()),
        is_clear_ahead(w, a + b),
    ensures
        is_clear_ahead(w.run(a), b),
    decreases a,
{
    if a > 0 {
        if w.quiescent() {
            assert(w.run(b) == w && w.rounds(b) == 0);
        } else {
            lemma_one_round(w, a + b);
            lemma_round_inv(w);
            assert((a + b - 1) as nat == (a - 1) as nat + b);
            lemma_clear_after(w.round(), (a - 1) as nat, b);
        }
    }
}

/// The clock counts rounds: after a run of a new simulation it reads one tick
/// per round, held at the last microsecond, and a run that is interrupted
/// takes as many rounds in its parts as in one go, and comes to the same.
pub proof fn law_runs_take_time(seed: u64, config: SimConfig, a: nat, b: nat)
    requires
        can_simulate(config),
    ensures
        ({
            let w = World::created(seed, config);
            let first = w.run(a);
            let whole = w.run(a + b);
            &&& first.run(b) == whole
            &&& first.clock == saturating_sum(0, TICK_MICROS * w.rounds(a))
            &&& whole.clock == saturating_sum(0, TICK_MICROS * w.rounds(a + b))
            &&& w.rounds(a) + first.rounds(b) == w.rounds(a + b)
            &&& w.rounds(a + b) <= a + b
            &&& first.quiescent() ==> first.rounds(b) == 0 && whole == first
        }),
{
    let w = World::created(seed, config);
    lemma_created(seed, config, config.actors as nat);
    lemma_spawn_first_inv(seed, config, config.actors as nat);
    lemma_run_inv(w, a);
    lemma_run_inv(w, a + b);
    law_run_in_parts(w, a, b);
}

/// A quiescent world stays as it is: running it further does nothing.
pub proof fn law_quiescence_lasts(w: World, n: nat)
    requires
        w.quiescent(),
    ensures
        w.run(n) == w,
        w.rounds(n) == 0,
{
}

/// Nothing vanishes: at quiescence every injected message ended up processed,
/// rejected or dropped, and the whole workload was injected.
pub proof fn law_closing(w: World)
    requires
        w.inv(Seq::empty()),
        w.quiescent(),
    ensures
        w.stats.injected == w.budget(),
        w.stats.processed + w.stats.rejected + w.stats.dropped >= w.stats.injected,
{
    lemma_nothing_pending(w, apps());
}

/// At quiescence every delivered copy was processed or dropped.
pub proof fn law_delivered_once(w: World)
    requires
        w.inv(Seq::empty()),
        w.quiescent(),
    ensures
        w.stats.delivered == w.stats.processed + w.stats.system_processed + w.stats.dropped,
{
    let f = |l: crate::sim::world::LedgerView| l.consumed + l.dropped;
    assert forall|o: int| 0 <= o < w.ledger.len() implies #[trigger] f(w.ledger[o])
        == crate::sim::soundness::delivered_of()(w.ledger[o]) by {
        assert(w.actor_balanced(o));
        lemma_viable_alive(w, o);
    }
    lemma_sum_same(w.ledger, f, crate::sim::soundness::delivered_of());
    crate::sums::lemma_sum_plus(
        w.ledger,
        crate::sim::soundness::consumed_of(),
        crate::sim::soundness::dropped_of(),
        f,
    );
}

/// Restarts are accounted for: every crash led to a restart or to a permanent
/// death, the trace shows each restart, and no actor was restarted more often
/// than the supervisor allows.
pub proof fn law_restarts(w: World, o: int)
    requires
        w.inv(Seq::empty()),
        0 <= o < w.actors.len(),
    ensures
        w.stats.restarted + w.stats.escalated == w.stats.crashed,
        w.supervisor.total_restarts() == w.stats.restarted,
        sum_of(w.trace, granted(o)) == w.supervisor.children[o].restarts,
        w.supervisor.max_restarts > 0 ==> w.supervisor.children[o].restarts
            <= w.supervisor.max_restarts,
        w.supervisor.max_restarts > 0 ==> w.stats.restarted <= w.supervisor.max_restarts
            * w.actors.len(),
{
    assert(w.actor_sound(o));
    assert(sum_of(w.trace, granted(o)) == w.ledger[o].incarnation);
    if w.supervisor.max_restarts > 0 {
        lemma_total_restarts(w);
    }
}

/// The dead stay dead: after an actor was killed, the trace shows nothing that
/// it does or undergoes, and it is not registered.
pub proof fn law_dead_stay_dead(w: World, i: int, j: int, o: u64)
    requires
        w.inv(Seq::empty()),
        0 <= i < j < w.trace.len(),
        w.trace[i] matches TraceOp::Kill { to, .. } && to == o,
    ensures
        !World::concerns(w.trace[j], o),
        !w.registry.entries.contains_key(w.actors[o as int].0),
{
    assert(w.op_true(w.trace[i]));
    lemma_viable_alive(w, o as int);
}

/// Restarts are limited from the start: where the configuration limits them,
/// the trace of a run shows no actor restarted more often, and nothing that an
/// actor does or undergoes after its death.
pub proof fn law_restart_discipline(seed: u64, config: SimConfig, n: nat, o: u64)
    requires
        can_simulate(config),
        config.max_restarts > 0,
        o < config.actors,
    ensures
        ({
            let trace = World::created(seed, config).run(n).trace;
            &&& sum_of(trace, granted(o as int)) <= config.max_restarts
            &&& forall|i: int, j: int|
                #![trigger trace[i], trace[j]]
                0 <= i < j < trace.len() && (trace[i] matches TraceOp::Kill { to, .. } && to == o)
                    ==> !World::concerns(trace[j], o)
        }),
{
    let w = World::created(seed, config);
    lemma_created(seed, config, config.actors as nat);
    lemma_run_inv(w, n);
    law_restarts(w.run(n), o as int);
}

/// The counters agree with the trace: each is the number of its entries, or
/// the sum of what they say.
pub proof fn law_counters_agree(sim: Sim)
    requires
        sim.wf(),
    ensures
        sim@.stats.injected == sum_of(sim@.trace, sends()),
        sim@.stats.rejected == sum_of(sim@.trace, rejects()),
        sim@.stats.processed == sum_of(sim@.trace, runs()),
        sim@.stats.system_processed == sum_of(sim@.trace, system_runs()),
        sim@.stats.crashed == sum_of(sim@.trace, crashes()),
        sim@.stats.restarted == sum_of(sim@.trace, answers(true)),
        sim@.stats.escalated == sum_of(sim@.trace, answers(false)),
        sim@.stats.escalated == sum_of(sim@.trace, kills()),
        sim@.stats.dropped == sum_of(sim@.trace, drops()),
{
    sim.lemma_wf();
    reveal(World::told);
}

/// Two terms of at least one make a sum of at least two.
proof fn lemma_two_terms(trace: Seq<TraceOp>, f: spec_fn(TraceOp) -> int, i: int, j: int)
    requires
        never_negative(f),
        0 <= i < j < trace.len(),
        f(trace[i]) >= 1,
        f(trace[j]) >= 1,
    ensures
        sum_of(trace, f) >= 2,
{
    lemma_sum_remove(trace, j, f);
    let rest = trace.remove(j);
    assert(rest[i] == trace[i]);
    lemma_sum_nonneg(rest, f);
    assert(f(rest[i]) <= sum_of(rest, f));
}

/// Only what was sent is processed, and only by the actor that it was sent to:
/// the entry for processing a message comes after the one entry for sending
/// it, and that one names the same actor.
pub proof fn law_processed_as_sent(sim: Sim, j: int) -> (i: int)
    requires
        sim.wf(),
        0 <= j < sim@.trace.len(),
        sim@.trace[j] is Process,
    ensures
        0 <= i < j,
        sends_to(sim@.trace[i], sim@.trace[j]->Process_mid, sim@.trace[j]->Process_to),
        forall|k: int|
            0 <= k < sim@.trace.len() && #[trigger] sends_of(sim@.trace[j]->Process_mid)(
                sim@.trace[k],
            ) > 0 ==> k == i,
        sim@.trace[j]->Process_mid < sim@.next_mid,
{
    sim.lemma_wf();
    lemma_processed_as_sent(sim@, j)
}

proof fn lemma_processed_as_sent(w: World, j: int) -> (i: int)
    requires
        w.told(Seq::empty()),
        0 <= j < w.trace.len(),
        w.trace[j] is Process,
    ensures
        0 <= i < j,
        sends_to(w.trace[i], w.trace[j]->Process_mid, w.trace[j]->Process_to),
        forall|k: int|
            0 <= k < w.trace.len() && #[trigger] sends_of(w.trace[j]->Process_mid)(w.trace[k]) > 0
                ==> k == i,
        w.trace[j]->Process_mid < w.next_mid,
{
    reveal(World::told);
    let trace = w.trace;
    let mid = trace[j]->Process_mid;
    let to = trace[j]->Process_to;
    let f = sends_of(mid);
    assert(is_due_to_send(trace, j));
    let i = choose|i: int|
        0 <= i < trace.take(j).len() && #[trigger] sends_to(trace.take(j)[i], mid, to);
    assert(trace.take(j)[i] == trace[i]);
    assert(f(trace[i]) == 1);
    lemma_sum_nonneg(trace, f);
    assert(sum_of(trace, f) >= 1);
    assert forall|k: int| 0 <= k < trace.len() && #[trigger] f(trace[k]) > 0 implies k == i by {
        if k < i {
            lemma_two_terms(trace, f, k, i);
        } else if i < k {
            lemma_two_terms(trace, f, i, k);
        }
    }
    i
}

/// Without duplicates nothing is processed twice: no two entries of the trace
/// of a run are for processing the same message.
pub proof fn law_processed_once(seed: u64, config: SimConfig, n: nat, i: int, j: int)
    requires
        can_simulate(config),
        config.faults.duplicate_prob is Never,
        0 <= i < j < World::created(seed, config).run(n).trace.len(),
        World::created(seed, config).run(n).trace[i] is Process,
        World::created(seed, config).run(n).trace[j] is Process,
    ensures
        World::created(seed, config).run(n).trace[i]->Process_mid != World::created(
            seed,
            config,
        ).run(n).trace[j]->Process_mid,
{
    let c = World::created(seed, config);
    let w = c.run(n);
    lemma_created(seed, config, config.actors as nat);
    lemma_run_inv(c, n);
    lemma_none_doubled(c, n);
    let mid = w.trace[i]->Process_mid;
    if w.trace[j]->Process_mid == mid {
        lemma_processed_as_sent(w, i);
        lemma_two_terms(w.trace, runs_of(mid), i, j);
        reveal(World::told);
        assert(w.mid_times[mid as int] == sum_of(w.trace, runs_of(mid)));
        assert(w.mid_accounted(Seq::empty(), mid as int));
        lemma_pending_nonneg(w, holds(mid));
    }
}

/// Where nothing may be duplicated, nothing is.
proof fn lemma_none_doubled(w: World, n: nat)
    requires
        w.inv(Seq::empty()),
        can_run(w),
        w.config.faults.duplicate_prob is Never,
    ensures
        w.run(n).stats.duplicates == w.stats.duplicates,
    decreases n,
{
    if n > 0 && !w.quiescent() {
        lemma_round_inv(w);
        lemma_round_kept(w);
        lemma_none_doubled(w.round(), (n - 1) as nat);
    }
}

/// Mailboxes are hard-bounded: in no simulation does a mailbox hold more than
/// its capacity, and a live actor's mailbox has the configured one.
pub proof fn law_mailboxes_bounded(sim: Sim, k: u128)
    requires
        sim.wf(),
        sim@.registry.entries.contains_key(k),
    ensures
        sim@.registry.entries[k].mailbox.queue.len() <= sim@.registry.config.capacity,
{
    sim.lemma_wf();
    assert(sim@.key_sound(k));
    assert(sim@.actor_sound(sim@.ordinals[k] as int));
}

/// What a run without faults preserves: nothing crashed, was rejected, dropped
/// or duplicated.
pub open spec fn is_calm(w: World) -> bool {
    &&& w.stats.crashed == 0
    &&& w.stats.rejected == 0
    &&& w.stats.dropped == 0
    &&& w.stats.duplicates == 0
}

/// Running without faults keeps a calm world calm.
pub proof fn law_calm_runs(w: World, n: nat)
    requires
        w.inv(Seq::empty()),
        can_run(w),
        w.config.faults.fault_free(),
        is_calm(w),
    ensures
        is_calm(w.run(n)),
    decreases n,
{
    if n > 0 && !w.quiescent() {
        lemma_round_inv(w);
        lemma_round_kept(w);
        law_calm_runs(w.round(), (n - 1) as nat);
    }
}

/// Exactly once: in a calm world that is quiescent every message of the
/// workload was processed exactly once, nothing was rejected or dropped, and
/// every actor processed its start message.
pub proof fn law_exactly_once(w: World)
    requires
        w.inv(Seq::empty()),
        is_calm(w),
        w.quiescent(),
    ensures
        forall|i: int| 0 <= i < w.budget() ==> #[trigger] w.mid_times[i] == 1,
        w.stats.injected == w.budget(),
        w.stats.processed == w.budget(),
        w.stats.rejected + w.stats.dropped == 0,
        w.stats.system_processed == w.actors.len(),
{
    assert forall|i: int| 0 <= i < w.budget() implies #[trigger] w.mid_times[i] == 1 by {
        assert(w.mid_accounted(Seq::empty(), i));
        lemma_nothing_pending(w, holds(i as u64));
    }
    assert forall|i: int| 0 <= i < w.mid_times.len() implies #[trigger] itself()(w.mid_times[i])
        == 1 by {
        assert(w.mid_times[i] == 1);
    }
    lemma_sum_of_ones(w.mid_times, itself());
    lemma_nothing_pending(w, starts());
}

/// Whether simulations of a configuration can be run: it fits, there is
/// somebody to send to, and restarted actors can be told apart.
pub open spec fn can_simulate(config: SimConfig) -> bool {
    &&& config_fits(config)
    &&& config.actors > 0 || config.messages == 0
    &&& 0 < config.max_restarts < DISTINCT_INCARNATIONS || 2 * config.messages
        < DISTINCT_INCARNATIONS || config.faults.crash_prob is Never
}

/// Exactly once, from the start: a simulation without faults that drained
/// processed the whole workload exactly once.
pub proof fn law_fault_free_exactly_once(seed: u64, config: SimConfig, n: nat)
    requires
        can_simulate(config),
        config.faults.fault_free(),
        World::created(seed, config).run(n).quiescent(),
    ensures
        ({
            let w = World::created(seed, config).run(n);
            &&& forall|i: int| 0 <= i < config.messages ==> #[trigger] w.mid_times[i] == 1
            &&& w.stats.injected == config.messages
            &&& w.stats.processed == config.messages
            &&& w.stats.rejected + w.stats.dropped == 0
            &&& w.stats.system_processed == config.actors
        }),
{
    let c = World::created(seed, config);
    lemma_created(seed, config, config.actors as nat);
    law_calm_runs(c, n);
    lemma_run_inv(c, n);
    law_exactly_once(c.run(n));
}

/// A new world is calm, has nothing under way but start messages, and can be
/// run.
proof fn lemma_created(seed: u64, config: SimConfig, n: nat)
    requires
        config_fits(config),
        n <= config.actors,
    ensures
        ({
            let w = World::void(seed, config).spawn_first(n);
            &&& w.inv(Seq::empty())
            &&& is_calm(w)
            &&& w.actors.len() == n
            &&& w.config == config
            &&& w.budget() == config.messages
            &&& w.registry.config == config.mailbox
            &&& w.supervisor.max_restarts == config.max_restarts
            &&& w.delayed.len() == 0
            &&& w.blocked.len() == 0
            &&& w.queued_sum(crate::sim::drain::queued_weight()) <= n
            &&& weight(w) <= MESSAGE_WEIGHT * config.messages + n
        }),
    decreases n,
{
    lemma_spawn_first_inv(seed, config, n);
    if n > 0 {
        let m = (n - 1) as nat;
        lemma_created(seed, config, m);
        let w = World::void(seed, config).spawn_first(m);
        lemma_spawn_first_inv(seed, config, m);
        let v = w.enrolled(m as u64);
        let d = World::start_of(m as u64);
        assert(!v.rejects(d));
        assert(!v.lacks_room(d));
        crate::sim::parcels::lemma_attempt_sums(v, d, crate::sim::drain::queued_weight());
        assert(v.queued_sum(crate::sim::drain::queued_weight()) == w.queued_sum(
            crate::sim::drain::queued_weight(),
        ));
        let x = World::void(seed, config).spawn_first(n);
        assert(x.blocked =~= w.blocked);
    } else {
        assert(World::void(seed, config).ready.tasks() =~= Seq::empty());
    }
}

/// The rounds within which a simulation drains.
pub open spec fn drain_limit(config: SimConfig) -> int {
    (MESSAGE_WEIGHT * config.messages + config.actors) * (longest_delay(config.faults) + 1)
}

/// Every simulation drains: where tasks are processed, parked deliveries are
/// tried again and batches fit the mailboxes, a run of a new simulation
/// reaches quiescence within a number of rounds that the configuration alone
/// determines, whatever the seed and the faults.
pub proof fn law_simulations_drain(seed: u64, config: SimConfig, n: nat)
    requires
        can_simulate(config),
        config.processing_per_tick > 0,
        config.blocked_retries_per_tick > 0,
        config.mailbox.capacity >= MAX_BATCH || config.mailbox.capacity >= config.messages,
        n >= drain_limit(config),
    ensures
        World::created(seed, config).run(n).quiescent(),
        World::created(seed, config).rounds(n) <= drain_limit(config),
{
    let w = World::created(seed, config);
    let span = longest_delay(config.faults);
    lemma_created(seed, config, config.actors as nat);
    let k = weight(w);
    let most = MESSAGE_WEIGHT * config.messages + config.actors;
    let s = span + 1;
    assert(k * s <= most * s) by (nonlinear_arith)
        requires
            k <= most,
            s >= 0,
    ;
    law_drains(w, span, n);
}

} // verus!
