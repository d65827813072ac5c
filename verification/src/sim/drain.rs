//! Every workload drains.
//!
//! The work left in a world is weighed: a message that is not injected yet
//! weighs more than the copies it can become, a postponed copy more than a
//! parked one, a parked one more than a queued one. No step adds weight, and a
//! round in which no weight goes only brings the next postponed delivery one
//! tick closer.
use crate::scheduler::is_viable;
use crate::sim::crashes::{can_restart, tells_apart, wreck};
use crate::sim::parcels::{
    lemma_attempt_sums, lemma_pending_nonneg, lemma_picked_sums, lemma_postpone_sums,
    lemma_unparked_sums, on_delivery, Parcel,
};
use crate::sim::rounds::{
    can_run, lemma_deliver_due_inv, lemma_inject_frame, lemma_retry_times_inv, lemma_round_inv,
    lemma_step_inv, lemma_step_is_turn, turn,
};
use crate::sim::scheduler::lemma_taken_sum;
use crate::sim::soundness::{astray, is_batch};
use crate::sim::turns::{lemma_can_take, lemma_perform_inv, lemma_task_ok, lemma_task_waits};
use crate::sim::upkeep::{
    lemma_advanced_inv, lemma_attempt_inv, lemma_hand_fits, lemma_landed_inv, lemma_rng_inv,
    lemma_unparked_inv, lemma_viable_alive,
};
use crate::sim::workload::{
    bumped, lemma_inject_one_inv, lemma_inject_workload_inv, lemma_plan_fits, plan_fits,
};
use crate::sim::world::{
    longest_delay, DeliveryView, LaterView, Plan, World, DUPLICATE_GAP_TICKS, MAX_BATCH,
};
use crate::sums::sum_of;
use vstd::prelude::*;

verus! {

/// Weight of a message that is not injected yet.
pub const MESSAGE_WEIGHT: u64 = 13;

/// Weight of a postponed delivery.
pub const LATER_WEIGHT: u64 = 6;

/// Weight of a parked parcel.
pub open spec fn parked_weight() -> spec_fn(Parcel) -> int {
    |p: Parcel|
        if p.mids.len() == 0 {
            2
        } else {
            5
        }
}

/// Weight of a queued parcel.
pub open spec fn queued_weight() -> spec_fn(Parcel) -> int {
    |p: Parcel|
        if p.mids.len() == 0 {
            1
        } else {
            4
        }
}

/// The work left in a world.
pub open spec fn weight(w: World) -> int {
    MESSAGE_WEIGHT * (w.budget() - w.next_mid) + LATER_WEIGHT * w.delayed.len() + sum_of(
        w.blocked,
        on_delivery(parked_weight()),
    ) + w.queued_sum(queued_weight())
}

/// Work left is never negative.
proof fn lemma_weight_nonneg(w: World)
    requires
        w.next_mid <= w.budget(),
    ensures
        weight(w) >= 0,
{
    lemma_pending_nonneg(w, parked_weight());
    lemma_pending_nonneg(w, queued_weight());
}

/// A delivery attempt adds at most the weight of a parked parcel, and less
/// when it does not park.
proof fn lemma_attempt_weight(w: World, d: DeliveryView)
    ensures
        weight(w.attempt(d)) <= weight(w) + parked_weight()(d.parcel()),
        w.accepts(d) || w.rejects(d) ==> weight(w.attempt(d)) < weight(w) + parked_weight()(
            d.parcel(),
        ),
{
    lemma_attempt_sums(w, d, parked_weight());
    lemma_attempt_sums(w, d, queued_weight());
}

/// Delivering adds at most the weight of a postponed delivery.
proof fn lemma_deliver_weight(w: World, d: DeliveryView, delay: int)
    ensures
        weight(w.deliver(d, delay)) <= weight(w) + LATER_WEIGHT,
{
    if delay > 0 {
        lemma_postpone_sums(w, d, delay, parked_weight());
        lemma_postpone_sums(w, d, delay, queued_weight());
        let later = LaterView { at: w.tick + delay, seq: w.next_seq + 1, delivery: d };
        crate::sim::parcels::lemma_slot_range(w.delayed, later.at);
    } else {
        lemma_attempt_weight(w, d);
    }
}

/// Injecting an event lightens the world.
proof fn lemma_inject_weight(w: World, plan: Plan)
    requires
        w.inv(Seq::empty()),
        plan_fits(w, plan),
    ensures
        weight(w.inject(plan)) < weight(w),
{
    let d = w.event_delivery(plan);
    let u = w.announced(plan);
    assert(weight(u) == weight(w) - MESSAGE_WEIGHT * plan.len);
    if plan.rejected {
    } else {
        lemma_deliver_weight(u, d, plan.delay as int);
        let v = w.first_copy(plan);
        if plan.duplicate {
            lemma_deliver_weight(bumped(v), d, plan.delay + DUPLICATE_GAP_TICKS);
        }
    }
}

/// Injecting events never adds weight, and takes some when there are any.
proof fn lemma_inject_times_weight(w: World, n: nat)
    requires
        w.inv(Seq::empty()),
        w.actors.len() > 0 || w.next_mid >= w.budget(),
    ensures
        weight(w.inject_times(n)) <= weight(w),
        n > 0 && w.next_mid < w.budget() ==> weight(w.inject_times(n)) < weight(w),
    decreases n,
{
    if n > 0 && w.next_mid < w.budget() {
        lemma_plan_fits(w);
        lemma_rng_inv(w, w.planned(), Seq::empty());
        lemma_inject_weight(w.planned(), w.plan());
        lemma_inject_one_inv(w);
        lemma_inject_times_weight(w.inject_one(), (n - 1) as nat);
    }
}

/// Delivering what is due lightens the world when something is.
proof fn lemma_due_weight(w: World)
    requires
        w.inv(Seq::empty()),
    ensures
        weight(w.deliver_due()) <= weight(w),
        w.is_due() ==> weight(w.deliver_due()) < weight(w),
    decreases w.delayed.len(),
{
    if w.is_due() {
        let d = w.delayed[0].delivery;
        lemma_landed_inv(w);
        lemma_attempt_inv(w.landed(), d, Seq::empty());
        lemma_attempt_weight(w.landed(), d);
        lemma_due_weight(w.landed().attempt(d));
    }
}

/// Trying parked deliveries again never adds weight.
proof fn lemma_retry_weight(w: World, n: nat)
    requires
        w.inv(Seq::empty()),
        n <= w.blocked.len(),
    ensures
        weight(w.retry_times(n)) <= weight(w),
        !w.ready.is_clear() ==> !w.retry_times(n).ready.is_clear(),
    decreases n,
{
    if n > 0 {
        let d = w.blocked[0];
        let u = w.unparked();
        lemma_unparked_sums(w, parked_weight());
        lemma_unparked_inv(w);
        lemma_attempt_inv(u, d, Seq::empty());
        lemma_attempt_weight(u, d);
        lemma_retry_weight(u.attempt(d), (n - 1) as nat);
    }
}

/// Whether the largest batch there can be fits a mailbox.
pub open spec fn batches_fit(w: World) -> bool {
    w.registry.config.capacity >= MAX_BATCH || w.registry.config.capacity >= w.budget()
}

/// When nothing is queued, all mailboxes are empty, and a delivery is not
/// parked.
proof fn lemma_open_mailboxes(w: World, d: DeliveryView)
    requires
        w.inv(Seq::empty().push(d.parcel())),
        w.ready.is_clear(),
        batches_fit(w),
    ensures
        w.accepts(d) || w.rejects(d),
{
    let none = Seq::<Parcel>::empty();
    let o = d.ord as int;
    lemma_hand_fits(w, none, d.parcel());
    if !w.rejects(d) {
        lemma_viable_alive(w, o);
        assert(w.actor_sound(o));
        assert(w.actor_balanced(o));
        assert(w.ready.tasks() =~= Seq::empty());
        assert(w.registry.waiting(w.actors[o]) == 0);
        let p = d.parcel();
        if is_batch(p) {
            let last = p.mids.len() - 1;
            assert(p.mids[last] == p.mids[0] + last);
            assert(p.mids[last] < w.next_mid);
        }
    }
}

/// When nothing is queued, trying parked deliveries again lightens the world.
proof fn lemma_retry_progress(w: World, n: nat)
    requires
        w.inv(Seq::empty()),
        0 < n <= w.blocked.len(),
        w.ready.is_clear(),
        batches_fit(w),
    ensures
        weight(w.retry_times(n)) < weight(w),
{
    let d = w.blocked[0];
    let u = w.unparked();
    lemma_unparked_sums(w, parked_weight());
    lemma_unparked_inv(w);
    lemma_open_mailboxes(u, d);
    lemma_attempt_inv(u, d, Seq::empty());
    lemma_attempt_weight(u, d);
    lemma_retry_weight(u.attempt(d), (n - 1) as nat);
}

/// Processing a task lightens the world.
proof fn lemma_turn_weight(w: World, rng: Seq<u8>, crash: bool)
    requires
        w.inv(Seq::empty()),
        !w.ready.is_clear(),
        crash ==> tells_apart(w),
    ensures
        weight(turn(w, rng, crash)) < weight(w),
{
    let t = w.next_task();
    let o = t.ord as int;
    lemma_can_take(w);
    lemma_taken_sum(w.ready, w.config.policy, w.rng, w.tick as u64, astray(w.ledger));
    lemma_task_ok(w, t);
    lemma_picked_sums(w, queued_weight());
    if !is_viable(w.registry, t.id) {
        assert(turn(w, rng, crash).ready == w.picked().ready);
    } else if !(crash && t.mids.len() > 0) {
        lemma_perform_inv(w, rng);
    } else {
        lemma_task_waits(w, t);
        if w.supervisor.has_budget(o) {
            let v = wreck(w, rng).answered(t.ord, true).reborn(t.ord);
            lemma_attempt_weight(v, World::start_of(t.ord));
            assert(v.ready == w.picked().ready);
            assert(v.blocked == w.blocked);
        } else {
            assert(turn(w, rng, crash).ready == w.picked().ready);
        }
    }
}

/// Making scheduling decisions never adds weight, and takes some when there
/// is a task.
proof fn lemma_steps_weight(w: World, n: nat)
    requires
        w.inv(Seq::empty()),
        can_restart(w),
    ensures
        weight(w.step_times(n)) <= weight(w),
        n > 0 && !w.ready.is_clear() ==> weight(w.step_times(n)) < weight(w),
    decreases n,
{
    if n > 0 && !w.ready.is_clear() {
        let t = w.next_task();
        lemma_step_is_turn(w);
        lemma_turn_weight(w, w.picked().risked(t).rng, w.picked().draws_crash(t));
        lemma_step_inv(w);
        lemma_steps_weight(w.step(), (n - 1) as nat);
    }
}

/// Whether every postponed delivery lands in one of the next `span` ticks.
pub open spec fn lands_within(w: World, span: int) -> bool {
    forall|i: int|
        0 <= i < w.delayed.len() ==> w.tick < (#[trigger] w.delayed[i]).at <= w.tick + span
}

/// Whether delays drawn from now on are at most `span` ticks.
pub open spec fn delays_within(w: World, span: int) -> bool {
    longest_delay(w.config.faults) <= span
}

/// Whether every postponed delivery lands at this tick or in the next `span`.
spec fn lands_from_now(w: World, span: int) -> bool {
    forall|i: int|
        0 <= i < w.delayed.len() ==> w.tick <= (#[trigger] w.delayed[i]).at <= w.tick + span
}

/// Delivering keeps postponed deliveries within their span.
proof fn lemma_deliver_span(w: World, d: DeliveryView, delay: int, span: int)
    requires
        lands_from_now(w, span),
        delay <= span,
    ensures
        lands_from_now(w.deliver(d, delay), span),
{
    if delay > 0 {
        let later = LaterView { at: w.tick + delay, seq: w.next_seq + 1, delivery: d };
        let slot = crate::sim::world::later_slot(w.delayed, later.at);
        let v = w.postpone(d, delay);
        crate::sim::parcels::lemma_slot_range(w.delayed, later.at);
        assert forall|i: int| 0 <= i < v.delayed.len() implies v.tick <= (
        #[trigger] v.delayed[i]).at <= v.tick + span by {
            if i < slot {
                assert(v.delayed[i] == w.delayed[i]);
            } else if i > slot {
                assert(v.delayed[i] == w.delayed[i - 1]);
            }
        }
    }
}

/// Injecting events keeps postponed deliveries within their span.
proof fn lemma_inject_span(w: World, n: nat, span: int)
    requires
        w.inv(Seq::empty()),
        w.actors.len() > 0 || w.next_mid >= w.budget(),
        lands_from_now(w, span),
        delays_within(w, span),
    ensures
        lands_from_now(w.inject_times(n), span),
    decreases n,
{
    if n > 0 && w.next_mid < w.budget() {
        lemma_plan_fits(w);
        let p = w.planned();
        let plan = w.plan();
        let d = p.event_delivery(plan);
        if !plan.rejected {
            lemma_deliver_span(p.announced(plan), d, plan.delay as int, span);
            if plan.duplicate {
                lemma_deliver_span(
                    bumped(p.first_copy(plan)),
                    d,
                    plan.delay + DUPLICATE_GAP_TICKS,
                    span,
                );
            }
        }
        lemma_inject_one_inv(w);
        lemma_inject_span(w.inject_one(), (n - 1) as nat, span);
    }
}

/// Delivering what is due leaves only what lands later.
proof fn lemma_due_span(w: World, span: int)
    requires
        w.inv(Seq::empty()),
        lands_from_now(w, span),
    ensures
        lands_within(w.deliver_due(), span),
    decreases w.delayed.len(),
{
    if w.is_due() {
        let d = w.delayed[0].delivery;
        let v = w.landed().attempt(d);
        lemma_landed_inv(w);
        lemma_attempt_inv(w.landed(), d, Seq::empty());
        assert forall|i: int| 0 <= i < v.delayed.len() implies v.tick <= (
        #[trigger] v.delayed[i]).at <= v.tick + span by {
            assert(v.delayed[i] == w.delayed[i + 1]);
        }
        lemma_due_span(v, span);
    } else if w.delayed.len() > 0 {
        assert forall|i: int| 0 <= i < w.delayed.len() implies w.tick < (
        #[trigger] w.delayed[i]).at <= w.tick + span by {
            if i > 0 {
                assert(World::lands_before(w.delayed[0], w.delayed[i]));
            }
        }
    }
}

/// Ticks until the next postponed delivery lands.
pub open spec fn wait(w: World) -> int {
    if w.delayed.len() > 0 {
        w.delayed[0].at - w.tick
    } else {
        0
    }
}

/// Whether rounds make progress: tasks are processed, parked deliveries are
/// tried again, and batches fit the mailboxes.
pub open spec fn makes_progress(w: World) -> bool {
    &&& w.config.processing_per_tick > 0
    &&& w.config.blocked_retries_per_tick > 0
    &&& batches_fit(w)
}

/// The rounds that are left, at most.
pub open spec fn rounds_left(w: World, span: int) -> int {
    weight(w) * (span + 1) + wait(w)
}

/// A round of a world that is not quiescent takes weight, or brings the next
/// postponed delivery closer and changes nothing else.
proof fn lemma_round_progress(w: World, span: int)
    requires
        w.inv(Seq::empty()),
        can_run(w),
        makes_progress(w),
        lands_within(w, span),
        delays_within(w, span),
        !w.quiescent(),
    ensures
        lands_within(w.round(), span),
        delays_within(w.round(), span),
        makes_progress(w.round()),
        0 <= weight(w.round()) <= weight(w),
        weight(w.round()) < weight(w) || (wait(w) > 0 && wait(w.round()) < wait(w)),
{
    let a = w.advanced();
    let b = a.inject_workload();
    let c = b.deliver_due();
    let d = c.retry_blocked();
    let e = w.round();
    lemma_round_inv(w);
    lemma_advanced_inv(w);
    assert forall|i: int| 0 <= i < a.delayed.len() implies a.tick <= (#[trigger] a.delayed[i]).at
        <= a.tick + span by {
        assert(w.tick < w.delayed[i].at);
    }
    if a.next_mid < a.budget() {
        let v = World {
            rng: crate::sim::faults::after_roll(a.rng, a.config.injection_rate.fraction),
            ..a
        };
        lemma_rng_inv(a, v, Seq::empty());
        lemma_inject_times_weight(v, a.attempts());
        lemma_inject_span(v, a.attempts(), span);
    }
    lemma_inject_workload_inv(a);
    lemma_inject_frame(a);
    lemma_due_weight(b);
    lemma_due_span(b, span);
    lemma_deliver_due_inv(b);
    lemma_retry_weight(c, c.retries());
    lemma_retry_times_inv(c, c.retries());
    lemma_steps_weight(d, w.config.processing_per_tick as nat);
    crate::sim::rounds::lemma_step_times_inv(d, w.config.processing_per_tick as nat);
    assert(e.delayed == c.delayed);
    lemma_weight_nonneg(e);
    if c.ready.is_clear() && c.blocked.len() > 0 {
        lemma_retry_progress(c, c.retries());
    }
    if weight(e) == weight(w) {
        assert(a.next_mid >= a.budget());
        assert(b == a);
        assert(!b.is_due());
        assert(c == a);
        assert(c.ready.is_clear());
        assert(c.blocked.len() == 0);
        assert(d == c);
        assert(e == d);
        lemma_idle(w);
    }
}

/// A world in which nothing is queued has empty mailboxes: if nothing is to be
/// injected or parked either, something is postponed or it is quiescent.
proof fn lemma_idle(w: World)
    requires
        w.inv(Seq::empty()),
        w.ready.is_clear(),
        w.blocked.len() == 0,
        w.next_mid >= w.budget(),
    ensures
        w.quiescent() <==> w.delayed.len() == 0,
{
    assert(w.ready.tasks() =~= Seq::empty());
    assert forall|o: int| 0 <= o < w.ledger.len() && (#[trigger] w.ledger[o]).alive implies
        w.registry.waiting(w.actors[o]) == 0 by {
        assert(w.actor_balanced(o));
    }
}

/// Every workload drains: where tasks are processed, parked deliveries tried
/// again and batches fit the mailboxes, a run reaches quiescence, and after no
/// more rounds than the work left in the world allows for.
pub proof fn law_drains(w: World, span: int, n: nat)
    requires
        w.inv(Seq::empty()),
        can_run(w),
        makes_progress(w),
        lands_within(w, span),
        delays_within(w, span),
        n >= rounds_left(w, span),
    ensures
        w.run(n).quiescent(),
        w.rounds(n) <= rounds_left(w, span),
    decreases n,
{
    let s = span + 1;
    let k = weight(w);
    assert(w.next_mid <= w.budget());
    lemma_weight_nonneg(w);
    if w.delayed.len() > 0 {
        assert(w.tick < w.delayed[0].at <= w.tick + span);
    }
    assert(k * s >= 0) by (nonlinear_arith)
        requires
            k >= 0,
            s >= 0,
    ;
    if !w.quiescent() {
        let v = w.round();
        lemma_round_inv(w);
        lemma_round_progress(w, span);
        let j = weight(v);
        if v.delayed.len() > 0 {
            assert(v.tick < v.delayed[0].at <= v.tick + span);
        }
        if j < k {
            assert(j * s + s <= k * s) by (nonlinear_arith)
                requires
                    j + 1 <= k,
                    s >= 0,
            ;
        }
        assert(rounds_left(v, span) < rounds_left(w, span));
        assert(j * s >= 0) by (nonlinear_arith)
            requires
                j >= 0,
                s >= 0,
        ;
        if n > 0 {
            law_drains(v, span, (n - 1) as nat);
        }
    }
}

} // verus!
