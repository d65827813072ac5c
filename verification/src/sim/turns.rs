//! Processing tasks keeps the invariants.
use crate::bytes::lemma_word_round_trip;
use crate::scheduler::{crashed, is_viable, lemma_ran, observed, ran};
use crate::sim::chronicle::{
    lemma_task_told, lemma_told_push, lemma_told_same, lemma_was_sent_push, stray, was_sent,
};
use crate::sim::executor::{record_of, ExecRecord, ExecTag};
use crate::sim::names::{law_identifiers_tell_apart, sim_id};
use crate::sim::parcels::{lemma_pending_nonneg, lemma_picked_sums, on_task, Parcel};
use crate::sim::scheduler::{can_take, lemma_taken_sum, SimTaskView};
use crate::sim::soundness::{
    apps, apps_if_live, astray, consecutive, consumed_of, delivered_of, dropped_of, holds, is_batch,
    is_placed, is_start, itself, parcel_fits, queued_by, sized_for, sizes, starts, unfit,
};
use crate::sim::trace::TraceOp;
use crate::sim::upkeep::{
    lemma_actors_distinct, lemma_astray_monotone, lemma_traced_push, lemma_traced_same,
    lemma_viable_alive,
};
use crate::sim::world::{LedgerView, StatsView, World};
use crate::sums::{
    lemma_sum_le, lemma_sum_nonneg, lemma_sum_of_ones, lemma_sum_update, never_negative, sum_of,
};
use crate::supervisor::restarts_of;
use crate::MessageView;
use vstd::prelude::*;

verus! {

/// One for every task.
spec fn each() -> spec_fn(SimTaskView) -> int {
    |t: SimTaskView| 1
}

/// There are no more tasks than copies and starts under way, so a ready set
/// that is not clear can be asked for a task.
pub proof fn lemma_can_take(w: World)
    requires
        w.inv(Seq::empty()),
        !w.ready.is_clear(),
    ensures
        can_take(w.ready),
        w.ready.tasks().len() <= 2 * w.next_mid + w.actors.len() + w.stats.restarted,
{
    let tasks = w.ready.tasks();
    let both = |t: SimTaskView| on_task(apps())(t) + on_task(starts())(t);
    lemma_sum_of_ones(tasks, each());
    lemma_sum_le(tasks, each(), both);
    crate::sums::lemma_sum_plus(tasks, on_task(apps()), on_task(starts()), both);
    lemma_pending_nonneg(w, apps());
    lemma_pending_nonneg(w, starts());
}

/// A queued task is well-made and for an incarnation that its actor has had.
pub proof fn lemma_task_ok(w: World, t: SimTaskView)
    requires
        w.proper(Seq::empty()),
        w.ready.tasks().contains(t),
    ensures
        parcel_fits(w.actors.len() as int, w.next_mid, t.parcel()),
        is_placed(w.ledger, t),
{
    let f = unfit(w.actors.len() as int, w.next_mid);
    let tasks = w.ready.tasks();
    let i = tasks.index_of(t);
    lemma_pending_nonneg(w, f);
    assert(never_negative(on_task(f)));
    lemma_sum_nonneg(tasks, on_task(f));
    assert(on_task(f)(tasks[i]) <= 0);
    lemma_sum_nonneg(tasks, astray(w.ledger));
    assert(astray(w.ledger)(tasks[i]) <= 0);
}

/// The owner of a registered task is its actor.
pub proof fn lemma_task_owner(w: World, t: SimTaskView)
    requires
        w.sound(),
        is_placed(w.ledger, t),
        w.registry.entries.contains_key(t.id.0),
    ensures
        t.id == w.actors[t.ord as int],
        w.ledger[t.ord as int].alive,
        is_viable(w.registry, t.id),
{
    assert(w.key_sound(t.id.0));
    let a = w.ordinals[t.id.0] as int;
    assert(w.actor_sound(a));
    assert(w.actor_sound(t.ord as int));
    let inc = choose|inc: int|
        0 <= inc <= w.ledger[t.ord as int].incarnation && t.id == #[trigger] sim_id(
            t.ord,
            inc as u64,
        );
    law_identifiers_tell_apart(t.ord, inc as u64, a as u64, w.ledger[a].incarnation as u64);
    assert(w.actors[a] == t.id);
}

/// While nothing has crashed, every actor is alive in its first incarnation.
pub proof fn lemma_untouched(w: World, o: int)
    requires
        w.sound(),
        w.counted(Seq::empty()),
        w.stats.crashed == 0,
        0 <= o < w.actors.len(),
    ensures
        w.ledger[o].alive,
        w.ledger[o].incarnation == 0,
{
    assert(w.actor_sound(o));
    lemma_restarts_bound(w, o);
}

/// An actor has been restarted no more often than all together.
pub proof fn lemma_restarts_bound(w: World, o: int)
    requires
        w.sound(),
        0 <= o < w.actors.len(),
    ensures
        w.ledger[o].incarnation <= w.supervisor.total_restarts(),
{
    let children = w.supervisor.children;
    assert forall|i: int| 0 <= i < children.len() implies #[trigger] restarts_of()(children[i])
        >= 0 by {
        assert(w.actor_sound(i));
    }
    lemma_term_bound(children, restarts_of(), o);
    assert(w.actor_sound(o));
}

/// A term is at most the sum when no term is negative.
pub proof fn lemma_term_bound<T>(s: Seq<T>, f: spec_fn(T) -> int, i: int)
    requires
        0 <= i < s.len(),
        forall|j: int| 0 <= j < s.len() ==> #[trigger] f(s[j]) >= 0,
    ensures
        f(s[i]) <= sum_of(s, f),
        sum_of(s, f) >= 0,
    decreases s.len(),
{
    let front = s.drop_last();
    assert forall|j: int| 0 <= j < front.len() implies #[trigger] f(front[j]) >= 0 by {
        assert(f(s[j]) >= 0);
    }
    assert(f(s[s.len() - 1]) >= 0);
    if front.len() > 0 {
        if i < front.len() {
            lemma_term_bound(front, f, i);
            assert(front[i] == s[i]);
        } else {
            lemma_term_bound(front, f, 0);
        }
    } else {
        reveal_with_fuel(sum_of, 2);
    }
}

/// Discarding a task of a dead actor keeps the invariants.
pub proof fn lemma_discard_inv(w: World)
    requires
        w.inv(Seq::empty()),
        can_take(w.ready),
        !is_viable(w.registry, w.next_task().id),
    ensures
        w.picked().dequeued(w.next_task()).discard(w.next_task()).inv(Seq::empty()),
{
    let t = w.next_task();
    let o = t.ord as int;
    let none = Seq::<Parcel>::empty();
    let v = w.picked().dequeued(t).discard(t);
    lemma_taken_sum(w.ready, w.config.policy, w.rng, w.tick as u64, astray(w.ledger));
    lemma_task_ok(w, t);
    if w.registry.entries.contains_key(t.id.0) {
        lemma_task_owner(w, t);
    }
    if w.stats.crashed == 0 {
        lemma_untouched(w, o);
        assert(w.actor_sound(o));
        let inc = choose|inc: int|
            0 <= inc <= w.ledger[o].incarnation && t.id == #[trigger] sim_id(t.ord, inc as u64);
        assert(t.id == w.actors[o]);
    }
    assert forall|a: int| 0 <= a < v.actors.len() implies #[trigger] v.actor_sound(a) by {
        assert(w.actor_sound(a));
    }
    assert forall|k: u128| #[trigger] v.key_sound(k) by {
        assert(w.key_sound(k));
    }
    let f = unfit(w.actors.len() as int, w.next_mid);
    lemma_picked_sums(w, f);
    lemma_astray_monotone(v.ready.tasks(), w.ledger, v.ledger);
    assert forall|a: int| 0 <= a < v.actors.len() implies #[trigger] v.actor_balanced(a) by {
        assert(w.actor_balanced(a));
        lemma_taken_sum(w.ready, w.config.policy, w.rng, w.tick as u64, sized_for(w.actors[a]));
        lemma_taken_sum(w.ready, w.config.policy, w.rng, w.tick as u64, queued_by(a));
        lemma_viable_alive(w, a);
    }
    assert forall|i: int| 0 <= i < v.budget() implies #[trigger] v.mid_accounted(none, i) by {
        assert(w.mid_accounted(none, i));
        lemma_picked_sums(w, holds(i as u64));
        if t.mids.contains(i as u64) {
            let k = t.mids.index_of(i as u64);
            assert(t.parcel().mids[k] < w.next_mid);
        }
    }
    lemma_picked_sums(w, apps());
    lemma_picked_sums(w, starts());
    lemma_picked_sums(w, sizes());
    lemma_taken_sum(
        w.ready,
        w.config.policy,
        w.rng,
        w.tick as u64,
        apps_if_live(w.registry.entries.dom()),
    );
    lemma_sum_update(w.ledger, o, v.ledger[o], delivered_of());
    lemma_sum_update(w.ledger, o, v.ledger[o], dropped_of());
    lemma_sum_update(w.ledger, o, v.ledger[o], consumed_of());
    lemma_picked_stray(w, v);
    if v.trace == w.trace {
        lemma_traced_same(w, v);
        lemma_told_same(w, v, none, none);
    } else {
        lemma_traced_push(w, v, v.trace.last());
        lemma_told_push(w, v, v.trace.last(), none, none);
    }
}

/// Choosing a task adds no parcel.
pub proof fn lemma_picked_stray(w: World, v: World)
    requires
        can_take(w.ready),
        v.ready == w.picked().ready,
        v.delayed == w.delayed,
        v.blocked == w.blocked,
    ensures
        v.total(Seq::empty(), stray(w.trace)) <= w.total(Seq::empty(), stray(w.trace)),
{
    let f = stray(w.trace);
    lemma_picked_sums(w, f);
    assert(v.queued_sum(f) == w.picked().queued_sum(f));
}

/// The records of a batch.
pub open spec fn batch_records(id: crate::ActorId, mids: Seq<u64>) -> Seq<ExecRecord> {
    mids.map_values(|mid: u64| ExecRecord { actor: id, tag: ExecTag::Custom(mid) })
}

/// What accounting for an executed batch comes to.
proof fn lemma_record_batch(w: World, id: crate::ActorId, mids: Seq<u64>)
    requires
        w.told(Seq::empty()),
        forall|i: int|
            0 <= i < mids.len() ==> was_sent(w.trace, #[trigger] mids[i], w.ordinals[id.0]),
        consecutive(mids),
        w.ordinals.contains_key(id.0),
        w.actors.len() == w.ledger.len(),
        w.ordinals[id.0] < w.ledger.len(),
        w.ledger[w.ordinals[id.0] as int].alive,
        forall|i: int| 0 <= i < mids.len() ==> #[trigger] mids[i] < w.budget(),
        w.budget() <= u64::MAX,
        w.traced(),
    ensures
        ({
            let v = w.record_all(batch_records(id, mids));
            let o = w.ordinals[id.0] as int;
            &&& v == (World {
                ledger: w.ledger.update(
                    o,
                    LedgerView { consumed: w.ledger[o].consumed + mids.len(), ..w.ledger[o] },
                ),
                mid_times: v.mid_times,
                stats: StatsView { processed: w.stats.processed + mids.len(), ..w.stats },
                trace: v.trace,
                ..w
            })
            &&& v.mid_times.len() == w.mid_times.len()
            &&& forall|i: int|
                0 <= i < w.mid_times.len() ==> #[trigger] v.mid_times[i] == w.mid_times[i] + (
                if mids.contains(i as u64) {
                    1int
                } else {
                    0
                })
            &&& sum_of(v.mid_times, itself()) == sum_of(w.mid_times, itself()) + mids.len()
            &&& v.traced()
            &&& v.told(Seq::empty())
            &&& forall|mid: u64, to: u64| #[trigger]
                was_sent(w.trace, mid, to) ==> was_sent(v.trace, mid, to)
        }),
    decreases mids.len(),
{
    let o = w.ordinals[id.0] as int;
    let records = batch_records(id, mids);
    if mids.len() == 0 {
        assert(w.ledger.update(
            o,
            LedgerView { consumed: w.ledger[o].consumed + mids.len(), ..w.ledger[o] },
        ) =~= w.ledger);
    } else {
        let front = mids.drop_last();
        let mid = mids.last();
        assert forall|i: int| 0 <= i < front.len() implies #[trigger] front[i] == front[0] + i by {
            assert(mids[i] == mids[0] + i);
        }
        assert forall|i: int| 0 <= i < front.len() implies #[trigger] front[i] < w.budget() by {
            assert(mids[i] < w.budget());
        }
        assert forall|i: int| 0 <= i < front.len() implies was_sent(
            w.trace,
            #[trigger] front[i],
            w.ordinals[id.0],
        ) by {
            assert(was_sent(w.trace, mids[i], w.ordinals[id.0]));
        }
        lemma_record_batch(w, id, front);
        let u = w.record_all(batch_records(id, front));
        let v = w.record_all(records);
        assert(records.drop_last() =~= batch_records(id, front));
        assert(records.last() == (ExecRecord { actor: id, tag: ExecTag::Custom(mid) }));
        assert(v == u.record(records.last()));
        assert(mids[mids.len() - 1] < w.budget());
        assert(!front.contains(mid)) by {
            if front.contains(mid) {
                let k = front.index_of(mid);
                assert(mids[k] == mids[0] + k);
                assert(mids[mids.len() - 1] == mids[0] + (mids.len() - 1));
            }
        }
        assert forall|i: int| 0 <= i < w.mid_times.len() implies #[trigger] v.mid_times[i]
            == w.mid_times[i] + (if mids.contains(i as u64) {
            1int
        } else {
            0
        }) by {
            assert(u.mid_times[i] == w.mid_times[i] + (if front.contains(i as u64) {
                1int
            } else {
                0
            }));
            if mids.contains(i as u64) {
                let k = mids.index_of(i as u64);
                if k < front.len() {
                    assert(front[k] == i as u64);
                }
            }
            if front.contains(i as u64) {
                let k = front.index_of(i as u64);
                assert(mids[k] == i as u64);
            }
            if i == mid {
                assert(mids[mids.len() - 1] == i as u64);
            }
        }
        lemma_sum_update(u.mid_times, mid as int, u.mid_times[mid as int] + 1, itself());
        assert(v.ledger =~= w.ledger.update(
            o,
            LedgerView { consumed: w.ledger[o].consumed + mids.len(), ..w.ledger[o] },
        ));
        let op = TraceOp::Process { mid, to: o as u64 };
        lemma_traced_push(u, v, op);
        assert(was_sent(w.trace, mids[mids.len() - 1], o as u64));
        assert(v.pending(stray(u.trace)) == u.pending(stray(u.trace)));
        lemma_told_push(u, v, op, Seq::empty(), Seq::empty());
        assert forall|m: u64, to: u64| #[trigger]
            was_sent(w.trace, m, to) implies was_sent(v.trace, m, to) by {
            lemma_was_sent_push(u.trace, op, m, to);
        }
    }
}

/// What is observed of a live task: its messages, one by one.
pub proof fn lemma_observed(w: World, t: SimTaskView)
    requires
        is_viable(w.registry, t.id),
        w.registry.waiting(t.id) >= t.msgs.len(),
        is_start(t.parcel()) || is_batch(t.parcel()),
    ensures
        is_batch(t.parcel()) ==> observed(w.registry, t.id, t.msgs) == batch_records(t.id, t.mids),
        is_start(t.parcel()) ==> observed(w.registry, t.id, t.msgs) == seq![
            ExecRecord { actor: t.id, tag: ExecTag::System },
        ],
        forall|i: int| 0 <= i < t.msgs.len() ==> !((#[trigger] t.msgs[i]).payload is Stop),
{
    lemma_no_stop(t);
    lemma_ran(w.registry, t.id, t.msgs);
    let seen = t.msgs.map_values(|m: MessageView| record_of(t.id, m));
    if is_batch(t.parcel()) {
        let records = batch_records(t.id, t.mids);
        assert forall|i: int| 0 <= i < seen.len() implies #[trigger] seen[i] == records[i] by {
            assert(t.parcel().msgs[i].payload == crate::PayloadView::Custom(
                crate::bytes::word_bytes(t.parcel().mids[i]),
            ));
            lemma_word_round_trip(t.mids[i]);
        }
        assert(seen =~= records);
    } else {
        assert(seen =~= seq![ExecRecord { actor: t.id, tag: ExecTag::System }]);
    }
}

/// No message of a task stops its actor.
proof fn lemma_no_stop(t: SimTaskView)
    requires
        is_start(t.parcel()) || is_batch(t.parcel()),
    ensures
        forall|i: int| 0 <= i < t.msgs.len() ==> !((#[trigger] t.msgs[i]).payload is Stop),
{
    assert forall|i: int| 0 <= i < t.msgs.len() implies !((#[trigger] t.msgs[i]).payload is Stop) by {
        if is_batch(t.parcel()) {
            assert(t.parcel().msgs[i].payload == crate::PayloadView::Custom(
                crate::bytes::word_bytes(t.parcel().mids[i]),
            ));
        }
    }
}

/// A live actor's mailbox holds the messages of each of its tasks.
pub proof fn lemma_task_waits(w: World, t: SimTaskView)
    requires
        w.inv(Seq::empty()),
        w.ready.tasks().contains(t),
        is_viable(w.registry, t.id),
    ensures
        t.id == w.actors[t.ord as int],
        w.ledger[t.ord as int].alive,
        t.ord < w.actors.len(),
        w.registry.waiting(t.id) >= t.msgs.len(),
        w.ledger[t.ord as int].queued >= t.mids.len(),
{
    lemma_task_ok(w, t);
    lemma_task_owner(w, t);
    let tasks = w.ready.tasks();
    let i = tasks.index_of(t);
    assert(w.actor_balanced(t.ord as int));
    lemma_sum_nonneg(tasks, sized_for(t.id));
    assert(sized_for(t.id)(tasks[i]) <= sum_of(tasks, sized_for(t.id)));
    lemma_sum_nonneg(tasks, queued_by(t.ord as int));
    assert(queued_by(t.ord as int)(tasks[i]) <= sum_of(tasks, queued_by(t.ord as int)));
}

/// What running a live task comes to, apart from the trace.
proof fn lemma_performed(w: World, t: SimTaskView)
    requires
        w.sound(),
        w.traced(),
        w.told(Seq::empty()),
        forall|i: int| 0 <= i < t.mids.len() ==> was_sent(w.trace, #[trigger] t.mids[i], t.ord),
        t.ord < w.actors.len(),
        t.id == w.actors[t.ord as int],
        is_viable(w.registry, t.id),
        w.registry.waiting(t.id) >= t.msgs.len(),
        parcel_fits(w.actors.len() as int, w.next_mid, t.parcel()),
    ensures
        ({
            let v = w.perform(t);
            let o = t.ord as int;
            &&& v == (World {
                registry: ran(w.registry, t.id, t.msgs),
                ledger: w.ledger.update(
                    o,
                    LedgerView { consumed: w.ledger[o].consumed + t.msgs.len(), ..w.ledger[o] },
                ),
                mid_times: v.mid_times,
                stats: StatsView {
                    processed: w.stats.processed + t.mids.len(),
                    system_processed: w.stats.system_processed + starts()(t.parcel()),
                    ..w.stats
                },
                trace: v.trace,
                ..w
            })
            &&& v.mid_times.len() == w.mid_times.len()
            &&& forall|i: int|
                0 <= i < w.mid_times.len() ==> #[trigger] v.mid_times[i] == w.mid_times[i] + (
                if t.mids.contains(i as u64) {
                    1int
                } else {
                    0
                })
            &&& sum_of(v.mid_times, itself()) == sum_of(w.mid_times, itself()) + t.mids.len()
            &&& v.traced()
            &&& v.told(Seq::empty())
        }),
{
    let o = t.ord as int;
    let u = World { registry: ran(w.registry, t.id, t.msgs), ..w };
    lemma_observed(w, t);
    lemma_viable_alive(w, o);
    assert(w.actor_sound(o));
    lemma_traced_same(w, u);
    assert(u.pending(stray(w.trace)) == w.pending(stray(w.trace)));
    lemma_told_same(w, u, Seq::empty(), Seq::empty());
    if is_batch(t.parcel()) {
        lemma_record_batch(u, t.id, t.mids);
    } else {
        let r = ExecRecord { actor: t.id, tag: ExecTag::System };
        let records = seq![r];
        assert(records.drop_last() =~= Seq::empty());
        reveal_with_fuel(World::record_all, 2);
        let v = u.record_all(records);
        assert(v == u.record(r));
        assert(t.mids.len() == 0);
        lemma_traced_push(u, v, TraceOp::ProcessSystem { to: t.ord });
        assert(v.pending(stray(u.trace)) == u.pending(stray(u.trace)));
        lemma_told_push(
            u,
            v,
            TraceOp::ProcessSystem { to: t.ord },
            Seq::empty(),
            Seq::empty(),
        );
    }
}

/// Running a task of a live actor keeps the invariants.
pub proof fn lemma_perform_inv(w: World, rng: Seq<u8>)
    requires
        w.inv(Seq::empty()),
        can_take(w.ready),
        is_viable(w.registry, w.next_task().id),
    ensures
        ({
            let v = (World { rng, ..w.picked().dequeued(w.next_task()) }).perform(w.next_task());
            &&& v.inv(Seq::empty())
            &&& v == (World {
                rng,
                registry: v.registry,
                ready: w.picked().ready,
                ledger: v.ledger,
                mid_times: v.mid_times,
                trace: v.trace,
                stats: v.stats,
                ..w
            })
            &&& v.registry.config == w.registry.config
            &&& v.mid_times.len() == w.mid_times.len()
            &&& v.stats == (StatsView {
                processed: w.stats.processed + w.next_task().mids.len(),
                system_processed: w.stats.system_processed + starts()(w.next_task().parcel()),
                ..w.stats
            })
        }),
{
    let t = w.next_task();
    let o = t.ord as int;
    let none = Seq::<Parcel>::empty();
    lemma_taken_sum(w.ready, w.config.policy, w.rng, w.tick as u64, astray(w.ledger));
    lemma_task_ok(w, t);
    lemma_task_waits(w, t);
    lemma_actors_distinct(w);
    let u = World { rng, ..w.picked().dequeued(t) };
    assert(u.sound()) by {
        assert forall|a: int| 0 <= a < u.actors.len() implies #[trigger] u.actor_sound(a) by {
            assert(w.actor_sound(a));
        }
        assert forall|k: u128| #[trigger] u.key_sound(k) by {
            assert(w.key_sound(k));
        }
    }
    lemma_traced_same(w, u);
    lemma_picked_stray(w, u);
    lemma_told_same(w, u, none, none);
    lemma_task_told(w, t);
    lemma_performed(u, t);
    lemma_no_stop(t);
    lemma_ran(w.registry, t.id, t.msgs);
    let v = u.perform(t);
    assert(v.registry == ran(w.registry, t.id, t.msgs));
    assert forall|a: int| 0 <= a < v.actors.len() implies #[trigger] v.actor_sound(a) by {
        assert(w.actor_sound(a));
        assert(w.actor_sound(o));
        if a != o {
            assert(w.actors[a].0 != w.actors[o].0);
            if w.ledger[a].alive {
                assert(v.registry.entries[w.actors[a].0] == w.registry.entries[w.actors[a].0]);
            }
        }
    }
    assert forall|k: u128| #[trigger] v.key_sound(k) by {
        assert(w.key_sound(k));
        assert(v.registry.entries.dom().contains(k) == w.registry.entries.dom().contains(k));
    }
    let f = unfit(w.actors.len() as int, w.next_mid);
    lemma_picked_sums(w, f);
    lemma_astray_monotone(v.ready.tasks(), w.ledger, v.ledger);
    assert forall|a: int| 0 <= a < v.actors.len() implies #[trigger] v.actor_balanced(a) by {
        assert(w.actor_balanced(a));
        lemma_taken_sum(w.ready, w.config.policy, w.rng, w.tick as u64, sized_for(w.actors[a]));
        lemma_taken_sum(w.ready, w.config.policy, w.rng, w.tick as u64, queued_by(a));
        if a != o {
            let k = w.actors[a].0;
            assert(k != w.actors[o].0);
            assert(v.registry.entries.dom().contains(k) == w.registry.entries.dom().contains(k));
            if w.registry.entries.contains_key(k) {
                assert(v.registry.entries[k] == w.registry.entries[k]);
            }
        }
    }
    assert forall|i: int| 0 <= i < v.budget() implies #[trigger] v.mid_accounted(none, i) by {
        assert(w.mid_accounted(none, i));
        lemma_picked_sums(w, holds(i as u64));
        assert(v.mid_times[i] == w.mid_times[i] + (if t.mids.contains(i as u64) {
            1int
        } else {
            0
        }));
        if t.mids.contains(i as u64) {
            let k = t.mids.index_of(i as u64);
            assert(t.parcel().mids[k] < w.next_mid);
        }
    }
    lemma_picked_sums(w, apps());
    lemma_picked_sums(w, starts());
    lemma_picked_sums(w, sizes());
    lemma_taken_sum(
        w.ready,
        w.config.policy,
        w.rng,
        w.tick as u64,
        apps_if_live(w.registry.entries.dom()),
    );
    assert(v.ledger =~= w.ledger.update(o, v.ledger[o]));
    lemma_sum_update(w.ledger, o, v.ledger[o], delivered_of());
    lemma_sum_update(w.ledger, o, v.ledger[o], dropped_of());
    lemma_sum_update(w.ledger, o, v.ledger[o], consumed_of());
}

} // verus!
