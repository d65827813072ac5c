//! Without faults, nothing is rejected and nothing is duplicated.
use crate::scheduler::is_viable;
use crate::sim::crashes::can_restart;
use crate::sim::faults::after_roll;
use crate::sim::parcels::Parcel;
use crate::sim::rounds::{
    can_run, lemma_deliver_due_inv, lemma_inject_frame, lemma_retry_times_inv, lemma_step_inv,
    lemma_step_is_turn, turn,
};
use crate::sim::turns::{lemma_can_take, lemma_perform_inv};
use crate::sim::upkeep::{
    lemma_advanced_inv, lemma_attempt_inv, lemma_hand_fits, lemma_landed_inv, lemma_rng_inv,
    lemma_unparked_inv, lemma_viable_alive,
};
use crate::sim::workload::{
    lemma_announced_inv, lemma_inject_one_inv, lemma_inject_workload_inv, lemma_plan_fits,
    plan_fits,
};
use crate::sim::world::{DeliveryView, Plan, World};
use vstd::prelude::*;

verus! {

/// Nothing was duplicated and, while nothing has crashed, nothing rejected.
pub open spec fn kept(w: World, v: World) -> bool {
    &&& v.stats.duplicates == w.stats.duplicates
    &&& w.stats.crashed == 0 ==> v.stats.rejected == w.stats.rejected
}

/// While nothing has crashed, a delivery is not rejected.
proof fn lemma_attempt_kept(w: World, d: DeliveryView, rest: Seq<Parcel>)
    requires
        w.inv(rest.push(d.parcel())),
    ensures
        kept(w, w.attempt(d)),
        w.attempt(d).stats.crashed == w.stats.crashed,
{
    lemma_hand_fits(w, rest, d.parcel());
    lemma_viable_alive(w, d.ord as int);
    assert(w.actor_sound(d.ord as int));
}

/// An event that is neither rejected nor duplicated leaves those counters
/// alone.
proof fn lemma_inject_kept(w: World, plan: Plan)
    requires
        w.inv(Seq::empty()),
        plan_fits(w, plan),
    ensures
        !plan.duplicate ==> w.inject(plan).stats.duplicates == w.stats.duplicates,
        !plan.duplicate && !plan.rejected ==> kept(w, w.inject(plan)),
{
    if !plan.duplicate && !plan.rejected {
        let d = w.event_delivery(plan);
        let u = w.announced(plan);
        lemma_announced_inv(w, plan);
        if plan.delay == 0 {
            lemma_attempt_kept(u, d, Seq::empty());
        }
    }
}

proof fn lemma_inject_times_kept(w: World, n: nat)
    requires
        w.inv(Seq::empty()),
        w.actors.len() > 0 || w.next_mid >= w.budget(),
        w.config.faults.duplicate_prob is Never,
    ensures
        w.inject_times(n).stats.duplicates == w.stats.duplicates,
        w.config.faults.send_reject_prob is Never ==> kept(w, w.inject_times(n)),
    decreases n,
{
    if n > 0 && w.next_mid < w.budget() {
        lemma_plan_fits(w);
        lemma_rng_inv(w, w.planned(), Seq::empty());
        lemma_inject_kept(w.planned(), w.plan());
        lemma_inject_one_inv(w);
        lemma_inject_times_kept(w.inject_one(), (n - 1) as nat);
    }
}

proof fn lemma_due_kept(w: World)
    requires
        w.inv(Seq::empty()),
    ensures
        kept(w, w.deliver_due()),
    decreases w.delayed.len(),
{
    if w.is_due() {
        let d = w.delayed[0].delivery;
        lemma_landed_inv(w);
        lemma_attempt_inv(w.landed(), d, Seq::empty());
        lemma_attempt_kept(w.landed(), d, Seq::empty());
        lemma_due_kept(w.landed().attempt(d));
    }
}

proof fn lemma_retry_kept(w: World, n: nat)
    requires
        w.inv(Seq::empty()),
        n <= w.blocked.len(),
    ensures
        kept(w, w.retry_times(n)),
    decreases n,
{
    if n > 0 {
        let d = w.blocked[0];
        lemma_unparked_inv(w);
        lemma_attempt_inv(w.unparked(), d, Seq::empty());
        lemma_attempt_kept(w.unparked(), d, Seq::empty());
        lemma_retry_kept(w.unparked().attempt(d), (n - 1) as nat);
    }
}

proof fn lemma_turn_kept(w: World, rng: Seq<u8>, crash: bool)
    requires
        w.inv(Seq::empty()),
        !w.ready.is_clear(),
    ensures
        turn(w, rng, crash).stats.duplicates == w.stats.duplicates,
        turn(w, rng, crash).stats.rejected == w.stats.rejected,
{
    let t = w.next_task();
    lemma_can_take(w);
    if is_viable(w.registry, t.id) && !(crash && t.mids.len() > 0) {
        lemma_perform_inv(w, rng);
    }
}

proof fn lemma_steps_kept(w: World, n: nat)
    requires
        w.inv(Seq::empty()),
        can_restart(w),
    ensures
        w.step_times(n).stats.duplicates == w.stats.duplicates,
        w.step_times(n).stats.rejected == w.stats.rejected,
    decreases n,
{
    if n > 0 && !w.ready.is_clear() {
        let t = w.next_task();
        lemma_step_is_turn(w);
        lemma_turn_kept(w, w.picked().risked(t).rng, w.picked().draws_crash(t));
        lemma_step_inv(w);
        lemma_steps_kept(w.step(), (n - 1) as nat);
    }
}

/// A round duplicates nothing where nothing may be, and rejects nothing where
/// there are no rejections and nothing has crashed.
pub proof fn lemma_round_kept(w: World)
    requires
        w.inv(Seq::empty()),
        can_run(w),
        w.config.faults.duplicate_prob is Never,
    ensures
        w.round().stats.duplicates == w.stats.duplicates,
        w.config.faults.send_reject_prob is Never ==> kept(w, w.round()),
{
    let a = w.advanced();
    let b = a.inject_workload();
    let c = b.deliver_due();
    let d = c.retry_blocked();
    lemma_advanced_inv(w);
    if a.next_mid < a.budget() {
        let v = World { rng: after_roll(a.rng, a.config.injection_rate.fraction), ..a };
        lemma_rng_inv(a, v, Seq::empty());
        lemma_inject_times_kept(v, a.attempts());
    }
    lemma_inject_workload_inv(a);
    lemma_inject_frame(a);
    lemma_due_kept(b);
    lemma_deliver_due_inv(b);
    lemma_retry_kept(c, c.retries());
    lemma_retry_times_inv(c, c.retries());
    lemma_steps_kept(d, w.config.processing_per_tick as nat);
}

} // verus!
