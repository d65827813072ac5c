//! Injecting the workload keeps the invariants.
use crate::sim::chronicle::{lemma_announced_told, lemma_told_less, lemma_told_reject};
use crate::sim::faults::{lemma_ranged_within, lemma_scaled_below, word};
use crate::sim::parcels::{lemma_pending_le, lemma_pending_nonneg, Parcel};
use crate::sim::soundness::{
    apps, consecutive, holds, is_batch, parcel_fits, sizes, starts, unfit,
};
use crate::sim::trace::RejectReason;
use crate::sim::upkeep::{
    lemma_attempt_inv, lemma_hand_fits, lemma_postpone_inv, lemma_rng_inv, lemma_traced_push,
    lemma_traced_reject,
};
use crate::sim::world::{
    longest_delay, mid_range, DeliveryView, Plan, StatsView, World, DUPLICATE_GAP_TICKS, MAX_BATCH,
};
use crate::sums::{lemma_sum_push, sum_of};
use vstd::prelude::*;

verus! {

/// Whether a plan can be carried out: it is for an actor that exists, and the
/// workload has as many messages left.
pub open spec fn plan_fits(w: World, plan: Plan) -> bool {
    &&& plan.to < w.actors.len()
    &&& 1 <= plan.len <= MAX_BATCH
    &&& plan.len <= w.budget() - w.next_mid
    &&& plan.rejected ==> plan.delay == 0 && !plan.duplicate
}

/// The plan that the stream decides can be carried out.
pub proof fn lemma_plan_fits(w: World)
    requires
        w.sound(),
        w.next_mid < w.budget(),
        w.actors.len() > 0,
    ensures
        plan_fits(w, w.plan()),
        w.draws_batch() ==> w.batch_max() >= 2,
        w.plan().last_delay() <= longest_delay(w.config.faults),
{
    lemma_scaled_below(word(w.rng), w.actors.len() as int);
    if w.draws_batch() {
        lemma_ranged_within(w.rng_batch(), 2, w.batch_max());
    }
    lemma_ranged_within(
        w.rng_delay(),
        w.config.faults.delay_ticks_min,
        w.config.faults.delay_ticks_max,
    );
}

/// A world in which one more event was duplicated.
pub open spec fn bumped(w: World) -> World {
    World { stats: StatsView { duplicates: w.stats.duplicates + 1, ..w.stats }, ..w }
}

/// The parcel of an event.
pub open spec fn event_parcel(w: World, plan: Plan) -> Parcel {
    w.event_delivery(plan).parcel()
}

/// What is in hand once an event was announced: one copy, or two.
pub open spec fn copies(w: World, plan: Plan) -> Seq<Parcel> {
    if plan.duplicate {
        Seq::empty().push(event_parcel(w, plan)).push(event_parcel(w, plan))
    } else {
        Seq::empty().push(event_parcel(w, plan))
    }
}

/// The world once an event was announced, its duplicate counted.
pub open spec fn announced_with(w: World, plan: Plan) -> World {
    if plan.duplicate {
        bumped(w.announced(plan))
    } else {
        w.announced(plan)
    }
}

/// The sum over the copies in hand.
proof fn lemma_copies_sum(w: World, plan: Plan, f: spec_fn(Parcel) -> int)
    ensures
        sum_of(copies(w, plan), f) == f(event_parcel(w, plan)) * (if plan.duplicate {
            2int
        } else {
            1
        }),
{
    let p = event_parcel(w, plan);
    lemma_sum_push(Seq::empty(), p, f);
    lemma_sum_push(Seq::empty().push(p), p, f);
}

/// The parcel of an event is well-made.
proof fn lemma_event_parcel(w: World, plan: Plan)
    requires
        w.sound(),
        plan_fits(w, plan),
    ensures
        is_batch(event_parcel(w, plan)),
        parcel_fits(w.actors.len() as int, w.next_mid + plan.len, event_parcel(w, plan)),
        event_parcel(w, plan).mids.len() == plan.len,
        forall|i: int|
            0 <= i < w.budget() ==> (#[trigger] event_parcel(w, plan).mids.contains(i as u64)
                <==> w.next_mid <= i < w.next_mid + plan.len),
{
    let p = event_parcel(w, plan);
    let first = w.next_mid;
    assert(p.mids == mid_range(first, plan.len as int));
    assert forall|i: int| 0 <= i < p.mids.len() implies #[trigger] p.mids[i] == first + i by {}
    assert(consecutive(p.mids));
    assert forall|i: int| 0 <= i < w.budget() implies (#[trigger] p.mids.contains(i as u64)
        <==> first <= i < first + plan.len) by {
        if first <= i < first + plan.len {
            assert(p.mids[i - first] == i as u64);
        }
        if p.mids.contains(i as u64) {
            let k = p.mids.index_of(i as u64);
            assert(p.mids[k] == first + k);
        }
    }
}

/// Announcing an event keeps the invariants, its copies being in hand.
pub proof fn lemma_announced_inv(w: World, plan: Plan)
    requires
        w.inv(Seq::empty()),
        plan_fits(w, plan),
    ensures
        announced_with(w, plan).inv(copies(w, plan)),
        announced_with(w, plan).next_seq + 2 <= 2 * announced_with(w, plan).next_mid,
{
    let v = announced_with(w, plan);
    let hand = copies(w, plan);
    let p = event_parcel(w, plan);
    let none = Seq::<Parcel>::empty();
    lemma_event_parcel(w, plan);
    assert forall|a: int| 0 <= a < v.actors.len() implies #[trigger] v.actor_sound(a) by {
        assert(w.actor_sound(a));
    }
    assert forall|k: u128| #[trigger] v.key_sound(k) by {
        assert(w.key_sound(k));
    }
    assert(v.proper(hand)) by {
        let f = unfit(w.actors.len() as int, w.next_mid);
        let g = unfit(v.actors.len() as int, v.next_mid);
        lemma_copies_sum(w, plan, g);
        assert forall|q: Parcel| #[trigger] g(q) <= f(q) by {}
        lemma_pending_le(w, g, f);
        lemma_pending_nonneg(w, g);
    }
    assert forall|a: int| 0 <= a < v.actors.len() implies #[trigger] v.actor_balanced(a) by {
        assert(w.actor_balanced(a));
    }
    assert forall|i: int| 0 <= i < v.budget() implies #[trigger] v.mid_accounted(hand, i) by {
        assert(w.mid_accounted(none, i));
        lemma_copies_sum(w, plan, holds(i as u64));
    }
    lemma_copies_sum(w, plan, apps());
    lemma_copies_sum(w, plan, starts());
    lemma_copies_sum(w, plan, sizes());
    lemma_traced_push(w, v, v.trace.last());
    assert forall|f: spec_fn(Parcel) -> int| #[trigger] v.pending(f) == w.pending(f) by {}
    assert forall|k: int| 0 <= k < hand.len() implies {
        let q = #[trigger] hand[k];
        &&& q.ord == plan.to
        &&& forall|i: int|
            0 <= i < q.mids.len() ==> w.next_mid <= #[trigger] q.mids[i] < w.next_mid + plan.len
    } by {
        assert(hand[k] == p);
        assert(p.mids == mid_range(w.next_mid, plan.len as int));
    }
    lemma_announced_told(w, v, w.next_mid as u64, plan.len, plan.to, hand);
}

/// Rejecting a batch in hand keeps the invariants.
pub proof fn lemma_reject_inv(w: World, p: Parcel, reason: RejectReason, rest: Seq<Parcel>)
    requires
        w.inv(rest.push(p)),
        is_batch(p),
    ensures
        w.reject(p.mids, p.ord, reason).inv(rest),
{
    let v = w.reject(p.mids, p.ord, reason);
    let hand = rest.push(p);
    lemma_hand_fits(w, rest, p);
    assert forall|a: int| 0 <= a < v.actors.len() implies #[trigger] v.actor_sound(a) by {
        assert(w.actor_sound(a));
    }
    assert forall|k: u128| #[trigger] v.key_sound(k) by {
        assert(w.key_sound(k));
    }
    assert forall|a: int| 0 <= a < v.actors.len() implies #[trigger] v.actor_balanced(a) by {
        assert(w.actor_balanced(a));
    }
    assert forall|i: int| 0 <= i < v.budget() implies #[trigger] v.mid_accounted(rest, i) by {
        assert(w.mid_accounted(hand, i));
        lemma_sum_push(rest, p, holds(i as u64));
        if p.mids.contains(i as u64) {
            let k = p.mids.index_of(i as u64);
            assert(p.mids[k] < w.next_mid);
        }
    }
    lemma_sum_push(rest, p, apps());
    lemma_sum_push(rest, p, starts());
    lemma_sum_push(rest, p, sizes());
    lemma_traced_reject(w, p.mids, p.ord, reason);
    lemma_told_reject(w, p.mids, p.ord, reason, hand);
    lemma_told_less(v, rest, p);
}

/// Delivering a parcel in hand, now or later, keeps the invariants.
pub proof fn lemma_deliver_inv(w: World, d: DeliveryView, delay: int, rest: Seq<Parcel>)
    requires
        w.inv(rest.push(d.parcel())),
        delay > 0 ==> w.next_seq < 2 * w.next_mid,
    ensures
        w.deliver(d, delay).inv(rest),
        w.deliver(d, delay).next_seq <= w.next_seq + 1,
        w.deliver(d, delay).next_mid == w.next_mid,
        w.deliver(d, delay).actors.len() == w.actors.len(),
        w.deliver(d, delay).mid_times == w.mid_times,
        w.deliver(d, delay).config == w.config,
        w.deliver(d, delay).tick == w.tick,
        w.deliver(d, delay).stats.crashed == w.stats.crashed,
        w.stats.blocked <= w.deliver(d, delay).stats.blocked <= w.stats.blocked + 1,
        delay > 0 ==> w.deliver(d, delay).stats.blocked == w.stats.blocked,
{
    if delay > 0 {
        lemma_postpone_inv(w, d, delay, rest);
    } else {
        lemma_attempt_inv(w, d, rest);
    }
}

/// Carrying out a plan keeps the invariants.
pub proof fn lemma_inject_inv(w: World, plan: Plan)
    requires
        w.inv(Seq::empty()),
        plan_fits(w, plan),
    ensures
        w.inject(plan).inv(Seq::empty()),
        w.inject(plan).next_mid == w.next_mid + plan.len,
        w.inject(plan).mid_times == w.mid_times,
        w.inject(plan).actors.len() == w.actors.len(),
        w.inject(plan).config == w.config,
        w.inject(plan).tick == w.tick,
        w.inject(plan).stats.crashed == w.stats.crashed,
        w.stats.blocked <= w.inject(plan).stats.blocked <= w.stats.blocked + 1,
{
    let none = Seq::<Parcel>::empty();
    let p = event_parcel(w, plan);
    let d = w.event_delivery(plan);
    let u = announced_with(w, plan);
    lemma_announced_inv(w, plan);
    lemma_event_parcel(w, plan);
    if plan.rejected {
        lemma_reject_inv(u, p, RejectReason::Fault, none);
    } else if plan.duplicate {
        let gap = plan.delay + DUPLICATE_GAP_TICKS;
        lemma_deliver_inv(u, d, plan.delay as int, none.push(p));
        let v = u.deliver(d, plan.delay as int);
        lemma_deliver_inv(v, d, gap, none);
        assert(v =~= bumped(w.first_copy(plan)));
    } else {
        lemma_deliver_inv(u, d, plan.delay as int, none);
    }
}

/// Injecting one event keeps the invariants.
pub proof fn lemma_inject_one_inv(w: World)
    requires
        w.inv(Seq::empty()),
        w.next_mid < w.budget(),
        w.actors.len() > 0,
    ensures
        w.inject_one().inv(Seq::empty()),
        w.next_mid < w.inject_one().next_mid,
        w.inject_one().mid_times == w.mid_times,
        w.inject_one().actors.len() == w.actors.len(),
        w.inject_one().config == w.config,
        w.inject_one().tick == w.tick,
        w.inject_one().stats.crashed == w.stats.crashed,
        w.stats.blocked <= w.inject_one().stats.blocked <= w.stats.blocked
            + w.inject_one().next_mid - w.next_mid,
{
    lemma_plan_fits(w);
    lemma_rng_inv(w, w.planned(), Seq::empty());
    lemma_inject_inv(w.planned(), w.plan());
}

/// Injecting events keeps the invariants.
pub proof fn lemma_inject_times_inv(w: World, n: nat)
    requires
        w.inv(Seq::empty()),
        w.actors.len() > 0 || w.next_mid >= w.budget(),
    ensures
        w.inject_times(n).inv(Seq::empty()),
        w.next_mid <= w.inject_times(n).next_mid,
        w.inject_times(n).mid_times == w.mid_times,
        w.inject_times(n).actors.len() == w.actors.len(),
        w.inject_times(n).config == w.config,
        w.inject_times(n).tick == w.tick,
        w.inject_times(n).stats.crashed == w.stats.crashed,
        w.stats.blocked <= w.inject_times(n).stats.blocked <= w.stats.blocked
            + w.inject_times(n).next_mid - w.next_mid,
    decreases n,
{
    if n > 0 && w.next_mid < w.budget() {
        lemma_inject_one_inv(w);
        lemma_inject_times_inv(w.inject_one(), (n - 1) as nat);
    }
}

/// Injecting the workload of a tick keeps the invariants.
pub proof fn lemma_inject_workload_inv(w: World)
    requires
        w.inv(Seq::empty()),
        w.actors.len() > 0 || w.next_mid >= w.budget(),
    ensures
        w.inject_workload().inv(Seq::empty()),
        w.next_mid <= w.inject_workload().next_mid,
        w.inject_workload().mid_times == w.mid_times,
        w.inject_workload().actors.len() == w.actors.len(),
        w.inject_workload().config == w.config,
        w.inject_workload().tick == w.tick,
        w.inject_workload().stats.crashed == w.stats.crashed,
        w.stats.blocked <= w.inject_workload().stats.blocked <= w.stats.blocked
            + w.inject_workload().next_mid - w.next_mid,
{
    if w.next_mid < w.budget() {
        let v = World {
            rng: crate::sim::faults::after_roll(w.rng, w.config.injection_rate.fraction),
            ..w
        };
        lemma_rng_inv(w, v, Seq::empty());
        lemma_inject_times_inv(v, w.attempts());
    }
}

} // verus!
