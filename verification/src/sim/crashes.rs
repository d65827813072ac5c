//! Crashes, restarts and deaths keep the invariants.
use crate::scheduler::{crashed, is_viable};
use crate::sim::chronicle::{lemma_death_told, lemma_restart_told, stray};
use crate::sim::names::{law_identifiers_tell_apart, sim_id, DISTINCT_INCARNATIONS};
use crate::sim::parcels::{lemma_pending_nonneg, lemma_picked_sums, Parcel};
use crate::sim::scheduler::{can_take, lemma_taken_sum, SimTaskView};
use crate::sim::soundness::{
    apps, apps_if_live, astray, consumed_of, delivered_of, dropped_of, holds, is_placed, queued_by,
    sized_for, sizes, starts, unfit,
};
use crate::sim::trace::TraceOp;
use crate::sim::turns::{
    lemma_picked_stray, lemma_task_ok, lemma_task_waits, lemma_term_bound,
};
use crate::sim::upkeep::{lemma_actors_distinct, lemma_astray_monotone, lemma_traced_push};
use crate::sim::world::{LedgerView, StatsView, World};
use crate::sums::{
    lemma_sum_le, lemma_sum_plus, lemma_sum_push, lemma_sum_update, lemma_sum_zero, sum_of,
};
use crate::supervisor::restarts_of;
use vstd::prelude::*;

verus! {

/// Whether every incarnation that crashes can bring about has an identifier
/// of its own.
pub open spec fn tells_apart(w: World) -> bool {
    ||| 0 < w.supervisor.max_restarts < DISTINCT_INCARNATIONS
    ||| 2 * w.budget() < DISTINCT_INCARNATIONS
}

/// Whether crashes, if there can be any, lead to incarnations that are told
/// apart.
pub open spec fn can_restart(w: World) -> bool {
    tells_apart(w) || w.config.faults.crash_prob is Never
}

/// The world after a chosen task crashed, before the supervisor is asked.
pub open spec fn wreck(w: World, rng: Seq<u8>) -> World {
    let t = w.next_task();
    World { rng, ..w.picked().dequeued(t) }.struck(t).settle(t.ord, t.mids)
}

/// What a crash destroys is what the actor's mailbox held.
pub proof fn lemma_wreck(w: World, rng: Seq<u8>)
    requires
        w.inv(Seq::empty()),
        can_take(w.ready),
        is_viable(w.registry, w.next_task().id),
    ensures
        ({
            let t = w.next_task();
            let o = t.ord as int;
            let n = w.registry.waiting(t.id);
            let v = wreck(w, rng);
            &&& 0 <= o < w.actors.len()
            &&& t.id == w.actors[o]
            &&& w.ledger[o].alive
            &&& n >= 0
            &&& v.registry == crashed(w.registry, t.id)
            &&& v.registry.waiting(t.id) == 0
            &&& v.ledger == w.ledger.update(
                o,
                LedgerView {
                    queued: w.ledger[o].queued - t.mids.len(),
                    dropped: w.ledger[o].dropped + n,
                    ..w.ledger[o]
                },
            )
            &&& v.stats == (StatsView {
                crashed: w.stats.crashed + 1,
                dropped: w.stats.dropped + n,
                ..w.stats
            })
            &&& v.trace == w.trace.push(TraceOp::Crash { to: t.ord, dropped: n as u64 })
            &&& is_placed(w.ledger, t)
        }),
{
    let t = w.next_task();
    let o = t.ord as int;
    lemma_taken_sum(w.ready, w.config.policy, w.rng, w.tick as u64, astray(w.ledger));
    lemma_task_ok(w, t);
    lemma_task_waits(w, t);
    assert(w.actor_balanced(o));
    let v = wreck(w, rng);
    assert(v.ledger =~= w.ledger.update(
        o,
        LedgerView {
            queued: w.ledger[o].queued - t.mids.len(),
            dropped: w.ledger[o].dropped + w.registry.waiting(t.id),
            ..w.ledger[o]
        },
    ));
}

/// A mailbox holds no more than can be counted.
proof fn lemma_waiting_small(w: World, o: int)
    requires
        w.inv(Seq::empty()),
        0 <= o < w.actors.len(),
    ensures
        w.registry.waiting(w.actors[o]) <= u64::MAX,
{
    assert forall|i: int| 0 <= i < w.ledger.len() implies #[trigger] delivered_of()(w.ledger[i])
        >= 0 by {
        assert(w.actor_balanced(i));
    }
    lemma_term_bound(w.ledger, delivered_of(), o);
    assert(w.actor_balanced(o));
    lemma_pending_nonneg(w, apps());
    lemma_pending_nonneg(w, sizes());
}

/// When an incarnation goes, what its tasks held was in its mailbox.
proof fn lemma_live_loss(w: World, tasks: Seq<SimTaskView>, id: crate::ActorId, after: Set<u128>)
    requires
        forall|i: int|
            0 <= i < tasks.len() ==> (#[trigger] tasks[i]).mids.len() <= tasks[i].msgs.len(),
        forall|i: int|
            0 <= i < tasks.len() && w.registry.entries.dom().contains((#[trigger] tasks[i]).id.0)
                && tasks[i].id != id ==> after.contains(tasks[i].id.0),
    ensures
        sum_of(tasks, apps_if_live(w.registry.entries.dom())) <= sum_of(tasks, apps_if_live(after))
            + sum_of(tasks, sized_for(id)),
{
    let both = |t: SimTaskView| apps_if_live(after)(t) + sized_for(id)(t);
    lemma_sum_le(tasks, apps_if_live(w.registry.entries.dom()), both);
    lemma_sum_plus(tasks, apps_if_live(after), sized_for(id), both);
}

/// The tasks left after one was chosen are among those before.
proof fn lemma_left_tasks(w: World)
    requires
        w.inv(Seq::empty()),
        can_take(w.ready),
    ensures
        forall|i: int|
            0 <= i < w.picked().ready.tasks().len() ==> {
                let t = #[trigger] w.picked().ready.tasks()[i];
                &&& is_placed(w.ledger, t)
                &&& t.mids.len() <= t.msgs.len()
            },
{
    let t = w.next_task();
    lemma_taken_sum(w.ready, w.config.policy, w.rng, w.tick as u64, astray(w.ledger));
    lemma_task_ok(w, t);
    let f = unfit(w.actors.len() as int, w.next_mid);
    lemma_picked_sums(w, f);
    let v = World { ready: w.picked().ready, ..w };
    assert(v.unsent(f) == w.unsent(f));
    assert(v.queued_sum(f) == w.picked().queued_sum(f));
    assert(v.proper(Seq::empty()));
    assert forall|i: int| 0 <= i < w.picked().ready.tasks().len() implies ({
        let t = #[trigger] w.picked().ready.tasks()[i];
        &&& is_placed(w.ledger, t)
        &&& t.mids.len() <= t.msgs.len()
    }) by {
        lemma_task_ok(v, v.ready.tasks()[i]);
    }
}

/// What the steps after a crash leave as it was, and what is accounted for.
proof fn lemma_wreck_accounted(w: World, v: World, rng: Seq<u8>, hand: Seq<Parcel>)
    requires
        w.inv(Seq::empty()),
        can_take(w.ready),
        is_viable(w.registry, w.next_task().id),
        v.ready == wreck(w, rng).ready,
        v.delayed == w.delayed,
        v.blocked == w.blocked,
        v.mid_times == w.mid_times,
        v.mid_lost == wreck(w, rng).mid_lost,
        v.next_mid == w.next_mid,
        v.stats.duplicates == w.stats.duplicates,
        v.stats.crashed == w.stats.crashed + 1,
        v.stats.rejected == w.stats.rejected,
        forall|mid: u64| sum_of(hand, #[trigger] holds(mid)) == 0,
    ensures
        v.accounted(hand),
{
    let t = w.next_task();
    let none = Seq::<Parcel>::empty();
    lemma_taken_sum(w.ready, w.config.policy, w.rng, w.tick as u64, astray(w.ledger));
    lemma_task_ok(w, t);
    assert forall|i: int| 0 <= i < v.budget() implies #[trigger] v.mid_accounted(hand, i) by {
        assert(w.mid_accounted(none, i));
        lemma_picked_sums(w, holds(i as u64));
        assert(v.queued_sum(holds(i as u64)) == w.picked().queued_sum(holds(i as u64)));
        if t.mids.contains(i as u64) {
            let k = t.mids.index_of(i as u64);
            assert(t.parcel().mids[k] < w.next_mid);
        }
    }
}

/// The next incarnation of an actor has an identifier that nobody has.
pub proof fn lemma_fresh_identity(w: World, ord: u64)
    requires
        w.sound(),
        ord < w.actors.len(),
        w.ledger[ord as int].incarnation + 1 < DISTINCT_INCARNATIONS,
    ensures
        !w.registry.entries.contains_key(
            sim_id(ord, (w.ledger[ord as int].incarnation + 1) as u64).0,
        ),
        forall|a: int|
            0 <= a < w.actors.len() ==> (#[trigger] w.actors[a]).0 != sim_id(
                ord,
                (w.ledger[ord as int].incarnation + 1) as u64,
            ).0,
{
    let inc = w.ledger[ord as int].incarnation + 1;
    let id = sim_id(ord, inc as u64);
    assert forall|a: int| 0 <= a < w.actors.len() implies (#[trigger] w.actors[a]).0 != id.0 by {
        assert(w.actor_sound(a));
        assert(w.actor_sound(ord as int));
        law_identifiers_tell_apart(a as u64, w.ledger[a].incarnation as u64, ord, inc as u64);
        if w.actors[a].0 == id.0 {
            assert(w.actors[a] == id);
        }
    }
    assert(w.key_sound(id.0));
}

/// A crash that the supervisor answers with a restart keeps the invariants,
/// the new incarnation's start message being in hand.
#[verifier::rlimit(30)]
pub proof fn lemma_reborn_inv(w: World, rng: Seq<u8>)
    requires
        w.inv(Seq::empty()),
        can_take(w.ready),
        is_viable(w.registry, w.next_task().id),
        w.next_task().mids.len() > 0,
        w.supervisor.has_budget(w.next_task().ord as int),
        w.ledger[w.next_task().ord as int].incarnation + 1 < DISTINCT_INCARNATIONS,
    ensures
        wreck(w, rng).answered(w.next_task().ord, true).reborn(w.next_task().ord).inv(
            Seq::empty().push(World::start_of(w.next_task().ord).parcel()),
        ),
{
    let t = w.next_task();
    let o = t.ord as int;
    let none = Seq::<Parcel>::empty();
    let p = World::start_of(t.ord).parcel();
    let hand = none.push(p);
    let u = wreck(w, rng);
    let v = u.answered(t.ord, true).reborn(t.ord);
    let inc = w.ledger[o].incarnation + 1;
    let id = sim_id(t.ord, inc as u64);
    lemma_wreck(w, rng);
    lemma_actors_distinct(w);
    lemma_left_tasks(w);
    assert(w.actor_sound(o));
    assert(v.actors[o] == id);
    assert(v.ledger =~= w.ledger.update(
        o,
        LedgerView {
            queued: w.ledger[o].queued - t.mids.len(),
            dropped: w.ledger[o].dropped + w.registry.waiting(t.id),
            incarnation: inc,
            ..w.ledger[o]
        },
    ));
    lemma_fresh_identity(w, t.ord);
    // Identities, registration and supervision.
    assert forall|a: int| 0 <= a < v.actors.len() implies #[trigger] v.actor_sound(a) by {
        assert(w.actor_sound(a));
        if a != o {
            assert(w.actors[a].0 != w.actors[o].0);
            assert(w.actors[a].0 != id.0);
        }
    }
    assert forall|k: u128| #[trigger] v.key_sound(k) by {
        assert(w.key_sound(k));
        if k == id.0 {
        } else if k == t.id.0 {
            assert(!v.ordinals.contains_key(k));
        } else {
            assert(v.ordinals.contains_key(k) == w.ordinals.contains_key(k));
        }
    }
    // Parcels.
    let f = unfit(w.actors.len() as int, w.next_mid);
    lemma_picked_sums(w, f);
    lemma_sum_push(none, p, f);
    lemma_taken_sum(w.ready, w.config.policy, w.rng, w.tick as u64, astray(w.ledger));
    lemma_astray_monotone(v.ready.tasks(), w.ledger, v.ledger);
    lemma_task_ok(w, t);
    // Accounts.
    let tasks = v.ready.tasks();
    assert forall|i: int| 0 <= i < tasks.len() implies #[trigger] sized_for(id)(tasks[i]) == 0 by {
        assert(tasks[i] == w.picked().ready.tasks()[i]);
        let s = tasks[i];
        let had = choose|had: int|
            0 <= had <= w.ledger[s.ord as int].incarnation && s.id == #[trigger] sim_id(
                s.ord,
                had as u64,
            );
        assert(w.actor_sound(s.ord as int));
        law_identifiers_tell_apart(s.ord, had as u64, t.ord, inc as u64);
    }
    lemma_sum_zero(tasks, sized_for(id));
    assert forall|a: int| 0 <= a < v.actors.len() implies #[trigger] v.actor_balanced(a) by {
        assert(w.actor_balanced(a));
        lemma_taken_sum(w.ready, w.config.policy, w.rng, w.tick as u64, sized_for(w.actors[a]));
        lemma_taken_sum(w.ready, w.config.policy, w.rng, w.tick as u64, queued_by(a));
        if a != o {
            let k = w.actors[a].0;
            assert(k != w.actors[o].0);
            assert(k != id.0);
            assert(v.registry.entries.contains_key(k) == w.registry.entries.contains_key(k));
        }
    }
    // Messages.
    assert forall|mid: u64| sum_of(hand, #[trigger] holds(mid)) == 0 by {
        lemma_sum_push(none, p, holds(mid));
    }
    lemma_wreck_accounted(w, v, rng, hand);
    // Counters.
    lemma_picked_sums(w, apps());
    lemma_picked_sums(w, starts());
    lemma_picked_sums(w, sizes());
    lemma_sum_push(none, p, apps());
    lemma_sum_push(none, p, starts());
    lemma_sum_push(none, p, sizes());
    lemma_sum_update(w.ledger, o, v.ledger[o], delivered_of());
    lemma_sum_update(w.ledger, o, v.ledger[o], dropped_of());
    lemma_sum_update(w.ledger, o, v.ledger[o], consumed_of());
    assert(v.supervisor.children =~= w.supervisor.children.update(o, v.supervisor.children[o]));
    lemma_sum_update(w.supervisor.children, o, v.supervisor.children[o], restarts_of());
    lemma_taken_sum(
        w.ready,
        w.config.policy,
        w.rng,
        w.tick as u64,
        apps_if_live(w.registry.entries.dom()),
    );
    lemma_taken_sum(w.ready, w.config.policy, w.rng, w.tick as u64, sized_for(t.id));
    assert(w.actor_balanced(o));
    lemma_live_loss(w, tasks, t.id, v.registry.entries.dom());
    // Trace.
    let c = World {
        trace: w.trace.push(TraceOp::Crash { to: t.ord, dropped: w.registry.waiting(t.id) as u64 }),
        ..w
    };
    lemma_traced_push(w, c, c.trace.last());
    let r = World {
        trace: c.trace.push(TraceOp::Restart { to: t.ord, allowed: true }),
        ledger: v.ledger,
        ..w
    };
    lemma_traced_push(c, r, r.trace.last());
    lemma_traced_push(r, v, TraceOp::Spawn { ord: t.ord });
    lemma_waiting_small(w, o);
    lemma_picked_stray(w, v);
    lemma_sum_push(none, p, stray(w.trace));
    lemma_restart_told(w, v, t.ord, w.registry.waiting(t.id) as u64, hand);
}

/// A crash that the supervisor answers with an escalation keeps the
/// invariants.
#[verifier::rlimit(30)]
pub proof fn lemma_killed_inv(w: World, rng: Seq<u8>)
    requires
        w.inv(Seq::empty()),
        can_take(w.ready),
        is_viable(w.registry, w.next_task().id),
        w.next_task().mids.len() > 0,
    ensures
        wreck(w, rng).answered(w.next_task().ord, false).kill(w.next_task().ord).inv(Seq::empty()),
{
    let t = w.next_task();
    let o = t.ord as int;
    let none = Seq::<Parcel>::empty();
    let u = wreck(w, rng);
    let v = u.answered(t.ord, false).kill(t.ord);
    lemma_wreck(w, rng);
    lemma_actors_distinct(w);
    lemma_left_tasks(w);
    assert(w.actor_sound(o));
    assert(v.ledger =~= w.ledger.update(
        o,
        LedgerView {
            queued: w.ledger[o].queued - t.mids.len(),
            dropped: w.ledger[o].dropped + w.registry.waiting(t.id),
            alive: false,
            ..w.ledger[o]
        },
    ));
    assert forall|a: int| 0 <= a < v.actors.len() implies #[trigger] v.actor_sound(a) by {
        assert(w.actor_sound(a));
        if a != o {
            assert(w.actors[a].0 != w.actors[o].0);
        }
    }
    assert forall|k: u128| #[trigger] v.key_sound(k) by {
        assert(w.key_sound(k));
        if k == t.id.0 {
            assert(!v.ordinals.contains_key(k));
        } else {
            assert(v.ordinals.contains_key(k) == w.ordinals.contains_key(k));
        }
    }
    let f = unfit(w.actors.len() as int, w.next_mid);
    lemma_picked_sums(w, f);
    lemma_taken_sum(w.ready, w.config.policy, w.rng, w.tick as u64, astray(w.ledger));
    lemma_astray_monotone(v.ready.tasks(), w.ledger, v.ledger);
    lemma_task_ok(w, t);
    let tasks = v.ready.tasks();
    assert forall|a: int| 0 <= a < v.actors.len() implies #[trigger] v.actor_balanced(a) by {
        assert(w.actor_balanced(a));
        lemma_taken_sum(w.ready, w.config.policy, w.rng, w.tick as u64, sized_for(w.actors[a]));
        lemma_taken_sum(w.ready, w.config.policy, w.rng, w.tick as u64, queued_by(a));
        if a != o {
            let k = w.actors[a].0;
            assert(k != w.actors[o].0);
            assert(v.registry.entries.contains_key(k) == w.registry.entries.contains_key(k));
        }
    }
    lemma_wreck_accounted(w, v, rng, none);
    lemma_picked_sums(w, apps());
    lemma_picked_sums(w, starts());
    lemma_picked_sums(w, sizes());
    lemma_sum_update(w.ledger, o, v.ledger[o], delivered_of());
    lemma_sum_update(w.ledger, o, v.ledger[o], dropped_of());
    lemma_sum_update(w.ledger, o, v.ledger[o], consumed_of());
    assert(v.supervisor.children =~= w.supervisor.children.update(o, v.supervisor.children[o]));
    lemma_sum_update(w.supervisor.children, o, v.supervisor.children[o], restarts_of());
    lemma_taken_sum(
        w.ready,
        w.config.policy,
        w.rng,
        w.tick as u64,
        apps_if_live(w.registry.entries.dom()),
    );
    lemma_taken_sum(w.ready, w.config.policy, w.rng, w.tick as u64, sized_for(t.id));
    assert(w.actor_balanced(o));
    lemma_live_loss(w, tasks, t.id, v.registry.entries.dom());
    let c = World {
        trace: w.trace.push(TraceOp::Crash { to: t.ord, dropped: w.registry.waiting(t.id) as u64 }),
        ..w
    };
    lemma_traced_push(w, c, c.trace.last());
    let r = World { trace: c.trace.push(TraceOp::Restart { to: t.ord, allowed: false }), ..w };
    lemma_traced_push(c, r, r.trace.last());
    lemma_traced_push(r, v, TraceOp::Kill { to: t.ord, dropped: 0 });
    lemma_waiting_small(w, o);
    lemma_picked_stray(w, v);
    lemma_death_told(w, v, t.ord, w.registry.waiting(t.id) as u64);
}

} // verus!
