//! Deliveries keep the invariants.
use crate::scheduler::is_viable;
use crate::sim::chronicle::{lemma_attempt_told, lemma_told_same, stray};
use crate::sim::names::law_identifiers_tell_apart;
use crate::sim::parcels::{
    lemma_attempt_sums, lemma_landed_sums, lemma_pending_nonneg, lemma_postpone_sums,
    lemma_slot_range, lemma_unparked_sums, Parcel,
};
use crate::sim::scheduler::{lemma_pushed_sum, SimTaskView};
use crate::sim::soundness::{
    apps, apps_if_live, astray, delivered_of, dropped_of, consumed_of, granted, holds, is_placed,
    parcel_fits, queued_by, sized_for, sizes, starts, unfit,
};
use crate::sim::trace::{RejectReason, TraceOp};
use crate::sim::world::{later_slot, reject_ops, DeliveryView, LaterView, LedgerView, World};
use crate::sums::{lemma_sum_nonneg, lemma_sum_push, lemma_sum_update, sum_of};
use vstd::prelude::*;

verus! {

/// Different actors have different identifiers.
pub proof fn lemma_actors_distinct(w: World)
    requires
        w.sound(),
    ensures
        forall|a: int, b: int|
            0 <= a < w.actors.len() && 0 <= b < w.actors.len() && a != b
                ==> (#[trigger] w.actors[a]).0 != (#[trigger] w.actors[b]).0,
{
    assert forall|a: int, b: int|
        0 <= a < w.actors.len() && 0 <= b < w.actors.len() && a != b implies (
    #[trigger] w.actors[a]).0 != (#[trigger] w.actors[b]).0 by {
        assert(w.actor_sound(a));
        assert(w.actor_sound(b));
        law_identifiers_tell_apart(
            a as u64,
            w.ledger[a].incarnation as u64,
            b as u64,
            w.ledger[b].incarnation as u64,
        );
        if w.actors[a].0 == w.actors[b].0 {
            assert(w.actors[a] == w.actors[b]);
        }
    }
}

/// An actor is viable exactly when it is alive.
pub proof fn lemma_viable_alive(w: World, o: int)
    requires
        w.sound(),
        0 <= o < w.actors.len(),
    ensures
        is_viable(w.registry, w.actors[o]) == w.ledger[o].alive,
        w.registry.entries.contains_key(w.actors[o].0) == w.ledger[o].alive,
{
    assert(w.actor_sound(o));
    assert(w.key_sound(w.actors[o].0));
    lemma_actors_distinct(w);
}

/// The sum over what is under way or in hand, after a delivery in hand was
/// tried: only a rejected parcel leaves it.
pub proof fn lemma_attempt_total(
    w: World,
    d: DeliveryView,
    rest: Seq<Parcel>,
    f: spec_fn(Parcel) -> int,
)
    ensures
        w.attempt(d).total(rest, f) == w.total(rest.push(d.parcel()), f) - (if w.rejects(d) {
            f(d.parcel())
        } else {
            0
        }),
{
    lemma_attempt_sums(w, d, f);
    lemma_sum_push(rest, d.parcel(), f);
}

/// What is in hand is well-made when everything is.
pub proof fn lemma_hand_fits(w: World, rest: Seq<Parcel>, p: Parcel)
    requires
        w.proper(rest.push(p)),
    ensures
        parcel_fits(w.actors.len() as int, w.next_mid, p),
        w.total(rest, unfit(w.actors.len() as int, w.next_mid)) == 0,
{
    let f = unfit(w.actors.len() as int, w.next_mid);
    lemma_sum_push(rest, p, f);
    lemma_pending_nonneg(w, f);
    lemma_sum_nonneg(rest, f);
}

proof fn lemma_accept_sound(w: World, d: DeliveryView)
    requires
        w.sound(),
        d.ord < w.actors.len(),
        w.accepts(d),
    ensures
        w.accept(d).sound(),
        w.ledger[d.ord as int].alive,
        w.accept(d).registry.entries.dom() == w.registry.entries.dom(),
{
    let v = w.accept(d);
    let o = d.ord as int;
    let id = w.actors[o];
    lemma_actors_distinct(w);
    lemma_viable_alive(w, o);
    assert(v.registry.entries.dom() =~= w.registry.entries.dom());
    assert forall|a: int| 0 <= a < v.actors.len() implies #[trigger] v.actor_sound(a) by {
        assert(w.actor_sound(a));
        assert(w.actor_sound(o));
    }
    assert forall|k: u128| #[trigger] v.key_sound(k) by {
        assert(w.key_sound(k));
        assert(v.registry.entries.contains_key(k) == w.registry.entries.contains_key(k));
    }
}

/// A delivery attempt keeps identities, registration and supervision in
/// agreement.
pub proof fn lemma_attempt_sound(w: World, d: DeliveryView)
    requires
        w.sound(),
        d.ord < w.actors.len(),
    ensures
        w.attempt(d).sound(),
        w.attempt(d).registry.entries.dom() == w.registry.entries.dom(),
        w.accepts(d) ==> w.ledger[d.ord as int].alive,
{
    let v = w.attempt(d);
    if w.accepts(d) {
        lemma_accept_sound(w, d);
    } else {
        assert forall|a: int| 0 <= a < v.actors.len() implies #[trigger] v.actor_sound(a) by {
            assert(w.actor_sound(a));
        }
        assert forall|k: u128| #[trigger] v.key_sound(k) by {
            assert(w.key_sound(k));
        }
    }
}

/// Raising an actor's account changes nothing about where tasks belong, as
/// long as incarnations do not go back.
pub proof fn lemma_astray_monotone(tasks: Seq<SimTaskView>, a: Seq<LedgerView>, b: Seq<LedgerView>)
    requires
        sum_of(tasks, astray(a)) == 0,
        a.len() <= b.len(),
        forall|o: int|
            0 <= o < a.len() ==> (#[trigger] a[o]).incarnation <= b[o].incarnation,
    ensures
        sum_of(tasks, astray(b)) == 0,
{
    assert forall|t: SimTaskView| #[trigger] astray(b)(t) <= astray(a)(t) by {
        if is_placed(a, t) {
            let inc = choose|inc: int|
                0 <= inc <= a[t.ord as int].incarnation && t.id == #[trigger] crate::sim::names::sim_id(
                    t.ord,
                    inc as u64,
                );
            assert(0 <= inc <= b[t.ord as int].incarnation && t.id
                == crate::sim::names::sim_id(t.ord, inc as u64));
        }
    }
    crate::sums::lemma_sum_le(tasks, astray(b), astray(a));
    lemma_sum_nonneg(tasks, astray(b));
}

proof fn lemma_attempt_proper(w: World, d: DeliveryView, rest: Seq<Parcel>)
    requires
        w.sound(),
        d.ord < w.actors.len(),
        w.proper(rest.push(d.parcel())),
    ensures
        w.attempt(d).proper(rest),
{
    let v = w.attempt(d);
    let f = unfit(w.actors.len() as int, w.next_mid);
    lemma_hand_fits(w, rest, d.parcel());
    lemma_attempt_total(w, d, rest, f);
    if w.accepts(d) {
        let t = w.task_for(d);
        let o = d.ord as int;
        assert(w.actor_sound(o));
        lemma_pushed_sum(w.ready, t, astray(w.ledger));
        assert(t.id == crate::sim::names::sim_id(t.ord, w.ledger[o].incarnation as u64));
        assert(is_placed(w.ledger, t));
        lemma_astray_monotone(v.ready.tasks(), w.ledger, v.ledger);
    }
}

proof fn lemma_attempt_balanced(w: World, d: DeliveryView)
    requires
        w.sound(),
        d.ord < w.actors.len(),
        w.balanced(),
    ensures
        w.attempt(d).balanced(),
{
    let v = w.attempt(d);
    if w.accepts(d) {
        let t = w.task_for(d);
        let o = d.ord as int;
        lemma_actors_distinct(w);
        lemma_accept_sound(w, d);
        assert forall|a: int| 0 <= a < v.actors.len() implies #[trigger] v.actor_balanced(a) by {
            assert(w.actor_balanced(a));
            lemma_pushed_sum(w.ready, t, sized_for(w.actors[a]));
            lemma_pushed_sum(w.ready, t, queued_by(a));
            if a != o {
                assert(w.actors[a].0 != w.actors[o].0);
            }
        }
    } else {
        assert forall|a: int| 0 <= a < v.actors.len() implies #[trigger] v.actor_balanced(a) by {
            assert(w.actor_balanced(a));
        }
    }
}

proof fn lemma_attempt_accounted(w: World, d: DeliveryView, rest: Seq<Parcel>)
    requires
        w.sound(),
        w.proper(rest.push(d.parcel())),
        w.counted(rest.push(d.parcel())),
        w.accounted(rest.push(d.parcel())),
    ensures
        w.attempt(d).accounted(rest),
{
    let v = w.attempt(d);
    lemma_hand_fits(w, rest, d.parcel());
    assert forall|i: int| 0 <= i < v.budget() implies #[trigger] v.mid_accounted(rest, i) by {
        assert(w.mid_accounted(rest.push(d.parcel()), i));
        lemma_attempt_total(w, d, rest, holds(i as u64));
        if d.mids.contains(i as u64) {
            let k = d.mids.index_of(i as u64);
            assert(d.parcel().mids[k] < w.next_mid);
        }
    }
}

proof fn lemma_attempt_counted(w: World, d: DeliveryView, rest: Seq<Parcel>)
    requires
        w.sound(),
        d.ord < w.actors.len(),
        w.proper(rest.push(d.parcel())),
        w.counted(rest.push(d.parcel())),
    ensures
        w.attempt(d).counted(rest),
{
    let v = w.attempt(d);
    let p = d.parcel();
    let o = d.ord as int;
    lemma_hand_fits(w, rest, p);
    lemma_attempt_total(w, d, rest, apps());
    lemma_attempt_total(w, d, rest, starts());
    lemma_attempt_sums(w, d, apps());
    lemma_attempt_sums(w, d, sizes());
    lemma_sum_push(rest, p, apps());
    lemma_sum_push(rest, p, sizes());
    lemma_viable_alive(w, o);
    assert(w.actor_sound(o));
    lemma_attempt_sound(w, d);
    if w.accepts(d) {
        lemma_sum_update(w.ledger, o, v.ledger[o], delivered_of());
        lemma_sum_update(w.ledger, o, v.ledger[o], dropped_of());
        lemma_sum_update(w.ledger, o, v.ledger[o], consumed_of());
        lemma_pushed_sum(w.ready, w.task_for(d), apps_if_live(w.registry.entries.dom()));
    }
}

/// Appending an operation that grants nothing and that, if it concerns an
/// actor, concerns a live one keeps the trace in order.
pub proof fn lemma_traced_push(w: World, v: World, op: TraceOp)
    requires
        w.traced(),
        v.trace == w.trace.push(op),
        v.actors.len() == w.actors.len(),
        w.ledger.len() == w.actors.len(),
        v.ledger.len() == w.ledger.len(),
        forall|o: int|
            0 <= o < w.ledger.len() ==> (#[trigger] v.ledger[o]).incarnation
                == w.ledger[o].incarnation + granted(o)(op),
        forall|o: int| 0 <= o < w.ledger.len() && !w.ledger[o].alive ==> !(#[trigger] v.ledger[o]).alive,
        forall|o: u64| #[trigger]
            World::concerns(op, o) ==> o < w.ledger.len() && w.ledger[o as int].alive,
        v.op_true(op),
    ensures
        v.traced(),
{
    assert forall|o: int| 0 <= o < v.actors.len() implies sum_of(v.trace, #[trigger] granted(o))
        == v.ledger[o].incarnation by {
        lemma_sum_push(w.trace, op, granted(o));
        assert(v.ledger[o].incarnation == w.ledger[o].incarnation + granted(o)(op));
    }
    assert forall|i: int| 0 <= i < v.trace.len() implies v.op_true(#[trigger] v.trace[i]) by {
        if i < w.trace.len() {
            assert(w.op_true(w.trace[i]));
        }
    }
    assert forall|i: int, j: int|
        #![trigger v.trace[i], v.trace[j]]
        0 <= i < j < v.trace.len() implies (v.trace[i] matches TraceOp::Kill { to, .. }
        ==> !World::concerns(v.trace[j], to)) by {
        assert(v.trace[i] == w.trace[i]);
        assert(w.op_true(w.trace[i]));
        if j < w.trace.len() {
            assert(v.trace[j] == w.trace[j]);
        }
    }
}

/// A trace that is unchanged stays in order while nobody comes back to life.
pub proof fn lemma_traced_same(w: World, v: World)
    requires
        w.traced(),
        v.trace == w.trace,
        v.actors.len() == w.actors.len(),
        w.ledger.len() == w.actors.len(),
        v.ledger.len() == w.ledger.len(),
        forall|o: int|
            0 <= o < w.ledger.len() ==> (#[trigger] v.ledger[o]).incarnation
                == w.ledger[o].incarnation,
        forall|o: int| 0 <= o < w.ledger.len() && !w.ledger[o].alive ==> !(#[trigger] v.ledger[o]).alive,
    ensures
        v.traced(),
{
    assert forall|i: int| 0 <= i < v.trace.len() implies v.op_true(#[trigger] v.trace[i]) by {
        assert(w.op_true(w.trace[i]));
    }
}

/// Rejections keep the trace in order.
pub proof fn lemma_traced_reject(w: World, mids: Seq<u64>, to: u64, reason: RejectReason)
    requires
        w.traced(),
        w.ledger.len() == w.actors.len(),
    ensures
        w.reject(mids, to, reason).traced(),
    decreases mids.len(),
{
    if mids.len() == 0 {
        assert(w.trace + reject_ops(mids, to, reason) =~= w.trace);
        lemma_traced_same(w, w.reject(mids, to, reason));
    } else {
        let front = mids.drop_last();
        lemma_traced_reject(w, front, to, reason);
        let u = w.reject(front, to, reason);
        let v = w.reject(mids, to, reason);
        let op = TraceOp::Reject { mid: mids.last(), to, reason };
        assert(reject_ops(mids, to, reason) =~= reject_ops(front, to, reason).push(op));
        assert(v.trace =~= u.trace.push(op));
        lemma_traced_push(u, v, op);
    }
}

proof fn lemma_attempt_traced(w: World, d: DeliveryView)
    requires
        w.sound(),
        d.ord < w.actors.len(),
        w.traced(),
    ensures
        w.attempt(d).traced(),
{
    let v = w.attempt(d);
    if w.rejects(d) {
        lemma_traced_reject(w, d.mids, d.ord, RejectReason::DeadTarget);
    } else {
        lemma_viable_alive(w, d.ord as int);
        if v.trace == w.trace {
            lemma_traced_same(w, v);
        } else {
            lemma_traced_push(w, v, v.trace.last());
        }
    }
}

/// A delivery attempt keeps the invariants.
pub proof fn lemma_attempt_inv(w: World, d: DeliveryView, rest: Seq<Parcel>)
    requires
        w.inv(rest.push(d.parcel())),
    ensures
        w.attempt(d).inv(rest),
{
    lemma_hand_fits(w, rest, d.parcel());
    lemma_attempt_sound(w, d);
    lemma_attempt_proper(w, d, rest);
    lemma_attempt_balanced(w, d);
    lemma_attempt_accounted(w, d, rest);
    lemma_attempt_counted(w, d, rest);
    lemma_attempt_traced(w, d);
    lemma_attempt_told(w, d, rest);
}

/// When nothing but the place of parcels changes, the invariants move along.
proof fn lemma_moved_inv(w: World, v: World, before: Seq<Parcel>, after: Seq<Parcel>)
    requires
        w.inv(before),
        v == (World {
            delayed: v.delayed,
            blocked: v.blocked,
            next_seq: v.next_seq,
            stats: crate::sim::world::StatsView { delayed: v.stats.delayed, ..w.stats },
            ..w
        }),
        forall|f: spec_fn(Parcel) -> int| #[trigger]
            v.unsent(f) + sum_of(after, f) == w.unsent(f) + sum_of(before, f),
        v.timely(),
    ensures
        v.inv(after),
{
    assert forall|f: spec_fn(Parcel) -> int| #[trigger] v.total(after, f) == w.total(before, f) by {
        assert(v.unsent(f) + sum_of(after, f) == w.unsent(f) + sum_of(before, f));
    }
    assert(v.sound()) by {
        assert forall|a: int| 0 <= a < v.actors.len() implies #[trigger] v.actor_sound(a) by {
            assert(w.actor_sound(a));
        }
        assert forall|k: u128| #[trigger] v.key_sound(k) by {
            assert(w.key_sound(k));
        }
    }
    let f = unfit(w.actors.len() as int, w.next_mid);
    assert(v.total(after, f) == w.total(before, f));
    assert(v.balanced()) by {
        assert forall|a: int| 0 <= a < v.actors.len() implies #[trigger] v.actor_balanced(a) by {
            assert(w.actor_balanced(a));
        }
    }
    assert(v.accounted(after)) by {
        assert forall|i: int| 0 <= i < v.budget() implies #[trigger] v.mid_accounted(after, i) by {
            assert(w.mid_accounted(before, i));
            assert(v.total(after, holds(i as u64)) == w.total(before, holds(i as u64)));
        }
    }
    assert(v.total(after, apps()) == w.total(before, apps()));
    assert(v.total(after, starts()) == w.total(before, starts()));
    assert(v.unsent(sizes()) + sum_of(after, sizes()) == w.unsent(sizes()) + sum_of(
        before,
        sizes(),
    ));
    assert(v.unsent(apps()) + sum_of(after, apps()) == w.unsent(apps()) + sum_of(before, apps()));
    lemma_traced_same(w, v);
    assert(v.total(after, stray(w.trace)) == w.total(before, stray(w.trace)));
    lemma_told_same(w, v, before, after);
}

/// Postponing a delivery in hand keeps the invariants.
pub proof fn lemma_postpone_inv(w: World, d: DeliveryView, delay: int, rest: Seq<Parcel>)
    requires
        w.inv(rest.push(d.parcel())),
        delay > 0,
        w.next_seq < 2 * w.next_mid,
    ensures
        w.postpone(d, delay).inv(rest),
{
    let v = w.postpone(d, delay);
    let before = rest.push(d.parcel());
    assert forall|f: spec_fn(Parcel) -> int| #[trigger]
        v.unsent(f) + sum_of(rest, f) == w.unsent(f) + sum_of(before, f) by {
        lemma_postpone_sums(w, d, delay, f);
        lemma_sum_push(rest, d.parcel(), f);
    }
    let later = LaterView { at: w.tick + delay, seq: w.next_seq + 1, delivery: d };
    let slot = later_slot(w.delayed, later.at);
    lemma_slot_range(w.delayed, later.at);
    assert forall|i: int, j: int| 0 <= i < j < v.delayed.len() implies World::lands_before(
        #[trigger] v.delayed[i],
        #[trigger] v.delayed[j],
    ) by {
        let a = if i < slot {
            i
        } else {
            i - 1
        };
        let b = if j < slot {
            j
        } else {
            j - 1
        };
        if i != slot && j != slot {
            assert(v.delayed[i] == w.delayed[a]);
            assert(v.delayed[j] == w.delayed[b]);
        } else if i == slot {
            assert(v.delayed[j] == w.delayed[b]);
        } else {
            assert(v.delayed[i] == w.delayed[i]);
            if i < slot - 1 {
                assert(World::lands_before(w.delayed[i], w.delayed[slot - 1]));
            }
        }
    }
    assert forall|i: int| 0 <= i < v.delayed.len() implies (#[trigger] v.delayed[i]).seq
        <= v.next_seq by {
        if i < slot {
            assert(v.delayed[i] == w.delayed[i]);
        } else if i > slot {
            assert(v.delayed[i] == w.delayed[i - 1]);
        }
    }
    lemma_moved_inv(w, v, before, rest);
}

/// Taking the earliest postponed delivery in hand keeps the invariants.
pub proof fn lemma_landed_inv(w: World)
    requires
        w.inv(Seq::empty()),
        w.delayed.len() > 0,
    ensures
        w.landed().inv(Seq::empty().push(w.delayed[0].delivery.parcel())),
{
    let p = w.delayed[0].delivery.parcel();
    let hand = Seq::empty().push(p);
    let v = w.landed();
    assert forall|f: spec_fn(Parcel) -> int| #[trigger]
        v.unsent(f) + sum_of(hand, f) == w.unsent(f) + sum_of(Seq::<Parcel>::empty(), f) by {
        lemma_landed_sums(w, f);
        lemma_sum_push(Seq::empty(), p, f);
    }
    assert forall|i: int, j: int| 0 <= i < j < v.delayed.len() implies World::lands_before(
        #[trigger] v.delayed[i],
        #[trigger] v.delayed[j],
    ) by {
        assert(v.delayed[i] == w.delayed[i + 1]);
        assert(v.delayed[j] == w.delayed[j + 1]);
    }
    assert forall|i: int| 0 <= i < v.delayed.len() implies (#[trigger] v.delayed[i]).seq
        <= v.next_seq by {
        assert(v.delayed[i] == w.delayed[i + 1]);
    }
    lemma_moved_inv(w, v, Seq::empty(), hand);
}

/// Taking the delivery parked longest in hand keeps the invariants.
pub proof fn lemma_unparked_inv(w: World)
    requires
        w.inv(Seq::empty()),
        w.blocked.len() > 0,
    ensures
        w.unparked().inv(Seq::empty().push(w.blocked[0].parcel())),
{
    let p = w.blocked[0].parcel();
    let hand = Seq::empty().push(p);
    let v = w.unparked();
    assert forall|f: spec_fn(Parcel) -> int| #[trigger]
        v.unsent(f) + sum_of(hand, f) == w.unsent(f) + sum_of(Seq::<Parcel>::empty(), f) by {
        lemma_unparked_sums(w, f);
        lemma_sum_push(Seq::empty(), p, f);
    }
    lemma_moved_inv(w, v, Seq::empty(), hand);
}

/// Time moving on keeps the invariants.
pub proof fn lemma_advanced_inv(w: World)
    requires
        w.inv(Seq::empty()),
    ensures
        w.advanced().inv(Seq::empty()),
{
    let v = w.advanced();
    assert forall|a: int| 0 <= a < v.actors.len() implies #[trigger] v.actor_sound(a) by {
        assert(w.actor_sound(a));
    }
    assert forall|k: u128| #[trigger] v.key_sound(k) by {
        assert(w.key_sound(k));
    }
    assert forall|a: int| 0 <= a < v.actors.len() implies #[trigger] v.actor_balanced(a) by {
        assert(w.actor_balanced(a));
    }
    assert forall|i: int| 0 <= i < v.budget() implies #[trigger] v.mid_accounted(
        Seq::empty(),
        i,
    ) by {
        assert(w.mid_accounted(Seq::empty(), i));
    }
    lemma_traced_same(w, v);
    assert(v.pending(stray(w.trace)) == w.pending(stray(w.trace)));
    lemma_told_same(w, v, Seq::empty(), Seq::empty());
}

/// The random stream is not part of any invariant.
pub proof fn lemma_rng_inv(w: World, v: World, hand: Seq<Parcel>)
    requires
        w.inv(hand),
        v == (World { rng: v.rng, config: v.config, ..w }),
    ensures
        v.inv(hand),
{
    assert forall|a: int| 0 <= a < v.actors.len() implies #[trigger] v.actor_sound(a) by {
        assert(w.actor_sound(a));
    }
    assert forall|k: u128| #[trigger] v.key_sound(k) by {
        assert(w.key_sound(k));
    }
    assert forall|a: int| 0 <= a < v.actors.len() implies #[trigger] v.actor_balanced(a) by {
        assert(w.actor_balanced(a));
    }
    assert forall|i: int| 0 <= i < v.budget() implies #[trigger] v.mid_accounted(hand, i) by {
        assert(w.mid_accounted(hand, i));
    }
    lemma_traced_same(w, v);
    assert(v.pending(stray(w.trace)) == w.pending(stray(w.trace)));
    lemma_told_same(w, v, hand, hand);
}

} // verus!
