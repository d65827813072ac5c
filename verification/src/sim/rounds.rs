//! Whole rounds keep the invariants.
use crate::scheduler::is_viable;
use crate::sim::clock::saturating_sum;
use crate::sim::crashes::{can_restart, lemma_killed_inv, lemma_reborn_inv, tells_apart, wreck};
use crate::sim::faults::after_roll;
use crate::sim::parcels::{lemma_pending_nonneg, on_delivery};
use crate::sim::scheduler::{lemma_taken_sum, SimTaskView};
use crate::sim::soundness::{apps, astray, sizes, unfit};
use crate::sim::turns::{
    lemma_can_take, lemma_discard_inv, lemma_perform_inv, lemma_restarts_bound, lemma_task_ok,
    lemma_task_waits,
};
use crate::sim::upkeep::{
    lemma_advanced_inv, lemma_attempt_inv, lemma_landed_inv, lemma_unparked_inv,
};
use crate::sim::workload::lemma_inject_workload_inv;
use crate::sim::world::{DeliveryView, World, TICK_MICROS};
use crate::sums::{lemma_sum_le, lemma_sum_nonneg, lemma_sum_of_ones, never_negative};
use vstd::prelude::*;

verus! {

/// What every step of a round leaves as it was.
pub open spec fn same_frame(w: World, v: World) -> bool {
    &&& v.seed == w.seed
    &&& v.config == w.config
    &&& v.tick == w.tick
    &&& v.clock == w.clock
    &&& v.actors.len() == w.actors.len()
    &&& v.mid_times.len() == w.mid_times.len()
    &&& v.registry.config == w.registry.config
    &&& v.supervisor.max_restarts == w.supervisor.max_restarts
}

/// Delivering everything due keeps the invariants, and nothing is due after.
pub proof fn lemma_deliver_due_inv(w: World)
    requires
        w.inv(Seq::empty()),
    ensures
        w.deliver_due().inv(Seq::empty()),
        !w.deliver_due().is_due(),
        same_frame(w, w.deliver_due()),
        w.deliver_due().next_mid == w.next_mid,
        w.deliver_due().stats.crashed == w.stats.crashed,
        w.stats.blocked <= w.deliver_due().stats.blocked <= w.stats.blocked + w.delayed.len(),
    decreases w.delayed.len(),
{
    if w.is_due() {
        let d = w.delayed[0].delivery;
        lemma_landed_inv(w);
        lemma_attempt_inv(w.landed(), d, Seq::empty());
        lemma_deliver_due_inv(w.landed().attempt(d));
    }
}

/// Trying parked deliveries again keeps the invariants.
pub proof fn lemma_retry_times_inv(w: World, n: nat)
    requires
        w.inv(Seq::empty()),
        n <= w.blocked.len(),
    ensures
        w.retry_times(n).inv(Seq::empty()),
        same_frame(w, w.retry_times(n)),
        w.retry_times(n).next_mid == w.next_mid,
        w.retry_times(n).delayed == w.delayed,
        w.retry_times(n).stats.crashed == w.stats.crashed,
        w.stats.blocked <= w.retry_times(n).stats.blocked <= w.stats.blocked + n,
    decreases n,
{
    if n > 0 {
        let d = w.blocked[0];
        lemma_unparked_inv(w);
        lemma_attempt_inv(w.unparked(), d, Seq::empty());
        lemma_retry_times_inv(w.unparked().attempt(d), (n - 1) as nat);
    }
}

/// One for every parked delivery.
spec fn each_parked() -> spec_fn(DeliveryView) -> int {
    |d: DeliveryView| 1
}

/// There are no more parked deliveries than messages that were to be
/// delivered.
pub proof fn lemma_parked_bound(w: World)
    requires
        w.inv(Seq::empty()),
    ensures
        w.blocked.len() <= 2 * w.next_mid + w.actors.len() + w.stats.restarted,
{
    let f = unfit(w.actors.len() as int, w.next_mid);
    lemma_pending_nonneg(w, f);
    assert(never_negative(on_delivery(f)));
    lemma_sum_nonneg(w.blocked, on_delivery(f));
    lemma_sum_of_ones(w.blocked, each_parked());
    assert forall|i: int| 0 <= i < w.blocked.len() implies #[trigger] each_parked()(w.blocked[i])
        <= on_delivery(sizes())(w.blocked[i]) by {
        assert(on_delivery(f)(w.blocked[i]) <= 0);
    }
    lemma_sum_le(w.blocked, each_parked(), on_delivery(sizes()));
    lemma_pending_nonneg(w, sizes());
}

/// Choosing a task and processing it, with a given stream and a given
/// decision on crashing.
pub open spec fn turn(w: World, rng: Seq<u8>, crash: bool) -> World {
    let t = w.next_task();
    if !is_viable(w.registry, t.id) {
        w.picked().dequeued(t).discard(t)
    } else {
        World { rng, ..w.picked().dequeued(t) }.execute(t, crash && t.mids.len() > 0)
    }
}

/// A turn keeps the invariants.
pub proof fn lemma_turn_inv(w: World, rng: Seq<u8>, crash: bool)
    requires
        w.inv(Seq::empty()),
        !w.ready.is_clear(),
        crash ==> tells_apart(w),
    ensures
        turn(w, rng, crash).inv(Seq::empty()),
        same_frame(w, turn(w, rng, crash)),
        turn(w, rng, crash).next_mid == w.next_mid,
        turn(w, rng, crash).delayed == w.delayed,
        w.stats.crashed <= turn(w, rng, crash).stats.crashed,
        w.stats.blocked <= turn(w, rng, crash).stats.blocked <= w.stats.blocked + turn(
            w,
            rng,
            crash,
        ).stats.crashed - w.stats.crashed,
        !crash ==> turn(w, rng, crash).stats.crashed == w.stats.crashed,
{
    let t = w.next_task();
    let o = t.ord as int;
    lemma_can_take(w);
    lemma_taken_sum(w.ready, w.config.policy, w.rng, w.tick as u64, astray(w.ledger));
    lemma_task_ok(w, t);
    if !is_viable(w.registry, t.id) {
        lemma_discard_inv(w);
    } else {
        lemma_task_waits(w, t);
        if !(crash && t.mids.len() > 0) {
            lemma_perform_inv(w, rng);
        } else if w.supervisor.has_budget(o) {
            lemma_next_incarnation(w, t);
            lemma_reborn_inv(w, rng);
            let v = wreck(w, rng).answered(t.ord, true).reborn(t.ord);
            lemma_attempt_inv(v, World::start_of(t.ord), Seq::empty());
        } else {
            lemma_killed_inv(w, rng);
        }
    }
}

/// A granted restart leads to an incarnation with an identifier of its own.
pub proof fn lemma_next_incarnation(w: World, t: SimTaskView)
    requires
        w.inv(Seq::empty()),
        tells_apart(w),
        t.ord < w.actors.len(),
        t.mids.len() > 0,
        w.ready.tasks().contains(t),
        w.supervisor.has_budget(t.ord as int),
    ensures
        w.ledger[t.ord as int].incarnation + 1 < crate::sim::names::DISTINCT_INCARNATIONS,
{
    let o = t.ord as int;
    assert(w.actor_sound(o));
    lemma_restarts_bound(w, o);
    lemma_pending_nonneg(w, apps());
    let tasks = w.ready.tasks();
    let i = tasks.index_of(t);
    assert(never_negative(crate::sim::parcels::on_task(apps())));
    lemma_sum_nonneg(tasks, crate::sim::parcels::on_task(apps()));
    assert(crate::sim::parcels::on_task(apps())(tasks[i]) <= w.queued_sum(apps()));
}

/// Choosing and processing a task is a turn.
pub proof fn lemma_step_is_turn(w: World)
    ensures
        w.step() == turn(
            w,
            w.picked().risked(w.next_task()).rng,
            w.picked().draws_crash(w.next_task()),
        ),
{
    let t = w.next_task();
    assert(w.picked().dequeued(t).risked(t) =~= World {
        rng: w.picked().risked(t).rng,
        ..w.picked().dequeued(t)
    });
}

/// Choosing and processing a task keeps the invariants.
pub proof fn lemma_step_inv(w: World)
    requires
        w.inv(Seq::empty()),
        !w.ready.is_clear(),
        can_restart(w),
    ensures
        w.step().inv(Seq::empty()),
        same_frame(w, w.step()),
        w.step().next_mid == w.next_mid,
        w.step().delayed == w.delayed,
        w.stats.crashed <= w.step().stats.crashed,
        w.stats.blocked <= w.step().stats.blocked <= w.stats.blocked + w.step().stats.crashed
            - w.stats.crashed,
        w.config.faults.crash_prob is Never ==> w.step().stats.crashed == w.stats.crashed,
{
    lemma_step_is_turn(w);
    lemma_turn_inv(
        w,
        w.picked().risked(w.next_task()).rng,
        w.picked().draws_crash(w.next_task()),
    );
}

/// Making scheduling decisions keeps the invariants.
pub proof fn lemma_step_times_inv(w: World, n: nat)
    requires
        w.inv(Seq::empty()),
        can_restart(w),
    ensures
        w.step_times(n).inv(Seq::empty()),
        same_frame(w, w.step_times(n)),
        w.step_times(n).next_mid == w.next_mid,
        w.step_times(n).delayed == w.delayed,
        w.stats.crashed <= w.step_times(n).stats.crashed,
        w.stats.blocked <= w.step_times(n).stats.blocked <= w.stats.blocked
            + w.step_times(n).stats.crashed - w.stats.crashed,
        w.config.faults.crash_prob is Never ==> w.step_times(n).stats.crashed == w.stats.crashed,
    decreases n,
{
    if n > 0 && !w.ready.is_clear() {
        lemma_step_inv(w);
        lemma_step_times_inv(w.step(), (n - 1) as nat);
    }
}

/// The most deliveries that one round can park.
pub open spec fn parking_limit(w: World) -> int {
    9 * w.budget() + w.actors.len()
}

/// Whether rounds can be run: there is somebody to send to, and restarted
/// actors can be told apart.
pub open spec fn can_run(w: World) -> bool {
    &&& w.actors.len() > 0 || w.next_mid >= w.budget()
    &&& can_restart(w)
}

/// A round keeps the invariants.
pub proof fn lemma_round_inv(w: World)
    requires
        w.inv(Seq::empty()),
        can_run(w),
    ensures
        w.round().inv(Seq::empty()),
        can_run(w.round()),
        same_frame(w.advanced(), w.round()),
        w.next_mid <= w.round().next_mid,
        w.stats.crashed <= w.round().stats.crashed,
        w.stats.blocked <= w.round().stats.blocked <= w.stats.blocked + parking_limit(w),
        parking_limit(w.round()) == parking_limit(w),
        w.config.faults.crash_prob is Never ==> w.round().stats.crashed == w.stats.crashed,
{
    let a = w.advanced();
    lemma_advanced_inv(w);
    lemma_inject_workload_inv(a);
    let b = a.inject_workload();
    lemma_inject_frame(a);
    lemma_deliver_due_inv(b);
    let c = b.deliver_due();
    lemma_retry_times_inv(c, c.retries());
    lemma_parked_bound(c);
    let d = c.retry_blocked();
    lemma_step_times_inv(d, w.config.processing_per_tick as nat);
    let e = w.round();
    lemma_pending_nonneg(c, apps());
    lemma_pending_nonneg(e, apps());
}

/// Injecting the workload leaves the frame of the world alone.
pub proof fn lemma_inject_frame(w: World)
    ensures
        same_frame(w, w.inject_workload()),
{
    if w.next_mid < w.budget() {
        let v = World { rng: after_roll(w.rng, w.config.injection_rate.fraction), ..w };
        lemma_inject_times_frame(v, w.attempts());
    }
}

proof fn lemma_inject_times_frame(w: World, n: nat)
    ensures
        same_frame(w, w.inject_times(n)),
    decreases n,
{
    if n > 0 && w.next_mid < w.budget() {
        lemma_inject_times_frame(w.inject_one(), (n - 1) as nat);
    }
}

/// Running rounds keeps the invariants.
pub proof fn lemma_run_inv(w: World, n: nat)
    requires
        w.inv(Seq::empty()),
        can_run(w),
    ensures
        w.run(n).inv(Seq::empty()),
        can_run(w.run(n)),
        w.run(n).tick == w.tick + w.rounds(n),
        w.rounds(n) <= n,
        w.run(n).clock == saturating_sum(w.clock as int, TICK_MICROS * w.rounds(n)),
        same_frame(World { tick: w.run(n).tick, clock: w.run(n).clock, ..w }, w.run(n)),
        w.next_mid <= w.run(n).next_mid,
        w.run(n).stats.blocked <= w.stats.blocked + n * parking_limit(w),
        w.config.faults.crash_prob is Never ==> w.run(n).stats.crashed == w.stats.crashed,
        w.rounds(n) < n ==> w.run(n).quiescent(),
    decreases n,
{
    let k = parking_limit(w);
    if n == 0 || w.quiescent() {
        assert(n * k >= 0) by (nonlinear_arith)
            requires
                n >= 0,
                k >= 0,
        ;
    } else {
        lemma_round_inv(w);
        lemma_run_inv(w.round(), (n - 1) as nat);
        assert(n * k == (n - 1) * k + k) by (nonlinear_arith);
    }
}

} // verus!
