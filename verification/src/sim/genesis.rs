//! A new world satisfies the invariants.
use crate::sim::chronicle::{lemma_told_push, stray};
use crate::sim::config::SimConfig;
use crate::sim::names::{
    law_identifiers_tell_apart, lemma_supervisor_name_injective, sim_id, supervisor_name_spec,
};
use crate::sim::parcels::{lemma_pending_le, lemma_pending_nonneg, Parcel};
use crate::sim::soundness::{
    apps, apps_if_live, consumed_of, delivered_of, dropped_of, granted, holds, itself, queued_by,
    sized_for, sizes, starts, unfit,
};
use crate::sim::trace::TraceOp;
use crate::sim::turns::lemma_task_ok;
use crate::sim::upkeep::{lemma_astray_monotone, lemma_attempt_inv, lemma_traced_push};
use crate::sim::world::World;
use crate::sums::{lemma_sum_push, lemma_sum_same, lemma_sum_zero, sum_of};
use crate::supervisor::restarts_of;
use vstd::prelude::*;

verus! {

/// Whether a configuration describes a world that fits in memory, with
/// mailboxes that hold something.
pub open spec fn config_fits(config: SimConfig) -> bool {
    &&& config.mailbox.capacity > 0
    &&& 4 * config.messages <= isize::MAX
    &&& 16 * config.actors <= isize::MAX
}

/// A world without actors satisfies the invariants.
pub proof fn lemma_void_inv(seed: u64, config: SimConfig)
    requires
        config_fits(config),
    ensures
        World::void(seed, config).inv(Seq::empty()),
{
    let w = World::void(seed, config);
    let none = Seq::<Parcel>::empty();
    assert(w.ready.tasks() =~= Seq::empty());
    assert forall|k: u128| #[trigger] w.key_sound(k) by {}
    assert forall|i: int| 0 <= i < w.budget() implies #[trigger] w.mid_accounted(none, i) by {
        assert(w.mid_times[i] == 0);
        assert(!w.mid_lost[i]);
        assert(w.total(none, holds(i as u64)) == 0);
    }
    assert(w.total(none, apps()) == 0);
    assert(w.total(none, starts()) == 0);
    assert(w.unsent(sizes()) == 0);
    assert(w.total(none, unfit(0, 0)) == 0);
    lemma_sum_zero(w.mid_times, itself());
    assert(w.told(none)) by {
        reveal(World::told);
        assert(w.total(none, stray(w.trace)) == 0);
    }
}

/// Whether an actor's name and identity are free in a world.
pub proof fn lemma_newcomer(w: World, ord: u64)
    requires
        w.sound(),
        ord == w.actors.len(),
    ensures
        !w.registry.entries.contains_key(sim_id(ord, 0).0),
        !w.supervisor.has_child(supervisor_name_spec(ord)),
        forall|a: int| 0 <= a < w.actors.len() ==> (#[trigger] w.actors[a]).0 != sim_id(ord, 0).0,
{
    let id = sim_id(ord, 0);
    assert forall|a: int| 0 <= a < w.actors.len() implies (#[trigger] w.actors[a]).0 != id.0 by {
        assert(w.actor_sound(a));
        law_identifiers_tell_apart(a as u64, w.ledger[a].incarnation as u64, ord, 0);
        if w.actors[a].0 == id.0 {
            assert(w.actors[a] == id);
        }
    }
    assert(w.key_sound(id.0));
    if w.supervisor.has_child(supervisor_name_spec(ord)) {
        let i = choose|i: int|
            0 <= i < w.supervisor.children.len() && (#[trigger] w.supervisor.children[i]).name
                == supervisor_name_spec(ord);
        assert(w.actor_sound(i));
        lemma_supervisor_name_injective(i as u64, ord);
    }
}

/// Enrolling an actor keeps the invariants, its start message being in hand.
pub proof fn lemma_enrolled_inv(w: World, ord: u64)
    requires
        w.inv(Seq::empty()),
        w.stats.crashed == 0,
        ord == w.actors.len(),
        16 * (ord + 1) <= isize::MAX,
    ensures
        w.enrolled(ord).inv(Seq::empty().push(World::start_of(ord).parcel())),
{
    let none = Seq::<Parcel>::empty();
    let p = World::start_of(ord).parcel();
    let hand = none.push(p);
    let v = w.enrolled(ord);
    let n = ord as int;
    let id = sim_id(ord, 0);
    lemma_newcomer(w, ord);
    assert forall|a: int| 0 <= a < v.actors.len() implies #[trigger] v.actor_sound(a) by {
        if a < n {
            assert(w.actor_sound(a));
            assert(w.actors[a].0 != id.0);
        }
    }
    assert forall|k: u128| #[trigger] v.key_sound(k) by {
        assert(w.key_sound(k));
    }
    // Parcels.
    let f = unfit(n, w.next_mid);
    let g = unfit(n + 1, w.next_mid);
    assert forall|q: Parcel| #[trigger] g(q) <= f(q) by {}
    lemma_pending_le(w, g, f);
    lemma_pending_nonneg(w, g);
    lemma_sum_push(none, p, g);
    assert(v.pending(g) == w.pending(g));
    lemma_astray_monotone(v.ready.tasks(), w.ledger, v.ledger);
    // Accounts.
    let tasks = w.ready.tasks();
    assert forall|i: int| 0 <= i < tasks.len() implies #[trigger] sized_for(id)(tasks[i]) == 0
        && queued_by(n)(tasks[i]) == 0 by {
        lemma_task_ok(w, tasks[i]);
        let s = tasks[i];
        let had = choose|had: int|
            0 <= had <= w.ledger[s.ord as int].incarnation && s.id == #[trigger] sim_id(
                s.ord,
                had as u64,
            );
        assert(w.actor_sound(s.ord as int));
        law_identifiers_tell_apart(s.ord, had as u64, ord, 0);
    }
    lemma_sum_zero(tasks, sized_for(id));
    assert forall|i: int| 0 <= i < tasks.len() implies #[trigger] queued_by(n)(tasks[i]) == 0 by {
        assert(sized_for(id)(tasks[i]) == 0);
    }
    lemma_sum_zero(tasks, queued_by(n));
    assert forall|a: int| 0 <= a < v.actors.len() implies #[trigger] v.actor_balanced(a) by {
        if a < n {
            assert(w.actor_balanced(a));
            assert(w.actors[a].0 != id.0);
        }
    }
    // Messages.
    assert forall|i: int| 0 <= i < v.budget() implies #[trigger] v.mid_accounted(hand, i) by {
        assert(w.mid_accounted(none, i));
        lemma_sum_push(none, p, holds(i as u64));
        assert(v.pending(holds(i as u64)) == w.pending(holds(i as u64)));
    }
    // Counters.
    lemma_sum_push(none, p, apps());
    lemma_sum_push(none, p, starts());
    lemma_sum_push(none, p, sizes());
    assert(v.pending(apps()) == w.pending(apps()));
    assert(v.pending(starts()) == w.pending(starts()));
    assert(v.unsent(sizes()) == w.unsent(sizes()));
    assert(v.unsent(apps()) == w.unsent(apps()));
    lemma_sum_push(w.ledger, v.ledger[n], delivered_of());
    lemma_sum_push(w.ledger, v.ledger[n], dropped_of());
    lemma_sum_push(w.ledger, v.ledger[n], consumed_of());
    lemma_sum_push(w.supervisor.children, v.supervisor.children[n], restarts_of());
    let live = w.registry.entries.dom();
    let more = v.registry.entries.dom();
    assert forall|i: int| 0 <= i < tasks.len() implies #[trigger] apps_if_live(more)(tasks[i])
        == apps_if_live(live)(tasks[i]) by {
        assert(sized_for(id)(tasks[i]) == 0);
        lemma_task_ok(w, tasks[i]);
    }
    lemma_sum_same(tasks, apps_if_live(more), apps_if_live(live));
    // Trace.
    let x = World { trace: w.trace, ..v };
    assert forall|o: int| 0 <= o < x.actors.len() implies sum_of(x.trace, #[trigger] granted(o))
        == x.ledger[o].incarnation by {
        if o == n {
            assert forall|i: int| 0 <= i < w.trace.len() implies #[trigger] granted(o)(w.trace[i])
                == 0 by {
                assert(w.op_true(w.trace[i]));
            }
            lemma_sum_zero(w.trace, granted(o));
        }
    }
    assert forall|i: int| 0 <= i < x.trace.len() implies x.op_true(#[trigger] x.trace[i]) by {
        assert(w.op_true(w.trace[i]));
    }
    lemma_traced_push(x, v, TraceOp::Spawn { ord });
    lemma_sum_push(none, p, stray(w.trace));
    assert(v.pending(stray(w.trace)) == w.pending(stray(w.trace)));
    lemma_told_push(w, v, TraceOp::Spawn { ord }, none, hand);
}

/// Spawning actors one after the other keeps the invariants, and nothing is
/// parked.
pub proof fn lemma_spawn_first_inv(seed: u64, config: SimConfig, n: nat)
    requires
        config_fits(config),
        n <= config.actors,
    ensures
        ({
            let w = World::void(seed, config).spawn_first(n);
            &&& w.inv(Seq::empty())
            &&& w.actors.len() == n
            &&& w.seed == seed
            &&& w.config == config
            &&& w.rng == World::void(seed, config).rng
            &&& w.clock == 0
            &&& w.tick == 0
            &&& w.next_mid == 0
            &&& w.next_seq == 0
            &&& w.budget() == config.messages
            &&& w.stats.crashed == 0
            &&& w.stats.blocked == 0
            &&& w.stats.duplicates == 0
            &&& w.registry.config == config.mailbox
            &&& w.supervisor.max_restarts == config.max_restarts
        }),
    decreases n,
{
    if n == 0 {
        lemma_void_inv(seed, config);
    } else {
        let m = (n - 1) as nat;
        lemma_spawn_first_inv(seed, config, m);
        let w = World::void(seed, config).spawn_first(m);
        let ord = m as u64;
        lemma_enrolled_inv(w, ord);
        let v = w.enrolled(ord);
        let d = World::start_of(ord);
        lemma_attempt_inv(v, d, Seq::empty());
        assert(!v.rejects(d));
        assert(!v.lacks_room(d));
    }
}

} // verus!
