//! A run goes by the configuration's policy, faults and rates alone: how many
//! actors and messages there are, and what their mailboxes are like, was
//! settled when the world was made.
use crate::sim::config::SimConfig;
use crate::sim::faults::after_roll;
use crate::sim::scheduler::SimTaskView;
use crate::sim::world::{DeliveryView, Plan, World};
use vstd::prelude::*;

verus! {

/// Whether two configurations differ in the shape of the world at most.
pub open spec fn same_course(a: SimConfig, b: SimConfig) -> bool {
    b == (SimConfig { actors: b.actors, messages: b.messages, mailbox: b.mailbox, ..a })
}

/// A world under another configuration.
pub open spec fn under(w: World, c: SimConfig) -> World {
    World { config: c, ..w }
}

proof fn lemma_deliver_under(w: World, c: SimConfig, d: DeliveryView, delay: int)
    ensures
        under(w, c).attempt(d) == under(w.attempt(d), c),
        under(w, c).deliver(d, delay) == under(w.deliver(d, delay), c),
{
}

proof fn lemma_inject_under(w: World, c: SimConfig, plan: Plan)
    ensures
        under(w, c).inject(plan) == under(w.inject(plan), c),
{
    let d = w.event_delivery(plan);
    let u = w.announced(plan);
    assert(under(w, c).announced(plan) == under(u, c));
    lemma_deliver_under(u, c, d, plan.delay as int);
}

proof fn lemma_inject_times_under(w: World, c: SimConfig, n: nat)
    requires
        same_course(w.config, c),
    ensures
        under(w, c).inject_times(n) == under(w.inject_times(n), c),
        w.inject_times(n).config == w.config,
    decreases n,
{
    if n > 0 && w.next_mid < w.budget() {
        assert(under(w, c).plan() == w.plan());
        assert(under(w, c).planned() == under(w.planned(), c));
        lemma_inject_under(w.planned(), c, w.plan());
        lemma_inject_times_under(w.inject_one(), c, (n - 1) as nat);
    }
}

proof fn lemma_due_under(w: World, c: SimConfig)
    ensures
        under(w, c).deliver_due() == under(w.deliver_due(), c),
        w.deliver_due().config == w.config,
    decreases w.delayed.len(),
{
    if w.is_due() {
        let d = w.delayed[0].delivery;
        assert(under(w, c).landed() == under(w.landed(), c));
        lemma_deliver_under(w.landed(), c, d, 0);
        lemma_due_under(w.landed().attempt(d), c);
    }
}

proof fn lemma_retry_under(w: World, c: SimConfig, n: nat)
    ensures
        under(w, c).retry_times(n) == under(w.retry_times(n), c),
        w.retry_times(n).config == w.config,
    decreases n,
{
    if n > 0 {
        let d = w.blocked[0];
        assert(under(w, c).unparked() == under(w.unparked(), c));
        lemma_deliver_under(w.unparked(), c, d, 0);
        lemma_retry_under(w.unparked().attempt(d), c, (n - 1) as nat);
    }
}

proof fn lemma_records_under(
    w: World,
    c: SimConfig,
    records: Seq<crate::sim::executor::ExecRecord>,
)
    ensures
        under(w, c).record_all(records) == under(w.record_all(records), c),
        w.record_all(records).config == w.config,
    decreases records.len(),
{
    if records.len() > 0 {
        lemma_records_under(w, c, records.drop_last());
    }
}

proof fn lemma_execute_under(w: World, c: SimConfig, t: SimTaskView, crash: bool)
    ensures
        under(w, c).execute(t, crash) == under(w.execute(t, crash), c),
        w.execute(t, crash).config == w.config,
{
    if crash {
        let u = w.struck(t).settle(t.ord, t.mids);
        assert(under(w, c).struck(t).settle(t.ord, t.mids) == under(u, c));
        if u.grants(t.ord as int) {
            let v = u.answered(t.ord, true).reborn(t.ord);
            assert(under(u, c).answered(t.ord, true).reborn(t.ord) == under(v, c));
            lemma_deliver_under(v, c, World::start_of(t.ord), 0);
        }
    } else {
        let u = World { registry: crate::scheduler::ran(w.registry, t.id, t.msgs), ..w };
        lemma_records_under(u, c, crate::scheduler::observed(w.registry, t.id, t.msgs));
    }
}

proof fn lemma_step_under(w: World, c: SimConfig)
    requires
        same_course(w.config, c),
    ensures
        under(w, c).step() == under(w.step(), c),
        w.step().config == w.config,
{
    let t = w.next_task();
    assert(under(w, c).next_task() == t);
    assert(under(w, c).picked() == under(w.picked(), c));
    let u = w.picked().dequeued(t).risked(t);
    assert(under(w, c).picked().dequeued(t).risked(t) == under(u, c));
    lemma_execute_under(u, c, t, w.picked().draws_crash(t));
}

proof fn lemma_steps_under(w: World, c: SimConfig, n: nat)
    requires
        same_course(w.config, c),
    ensures
        under(w, c).step_times(n) == under(w.step_times(n), c),
        w.step_times(n).config == w.config,
    decreases n,
{
    if n > 0 && !w.ready.is_clear() {
        lemma_step_under(w, c);
        lemma_steps_under(w.step(), c, (n - 1) as nat);
    }
}

proof fn lemma_round_under(w: World, c: SimConfig)
    requires
        same_course(w.config, c),
    ensures
        under(w, c).round() == under(w.round(), c),
        w.round().config == w.config,
{
    let a = w.advanced();
    assert(under(w, c).advanced() == under(a, c));
    if a.next_mid < a.budget() {
        let v = World { rng: after_roll(a.rng, a.config.injection_rate.fraction), ..a };
        assert(World {
            rng: after_roll(a.rng, c.injection_rate.fraction),
            ..under(a, c)
        } == under(v, c));
        lemma_inject_times_under(v, c, a.attempts());
    }
    let b = a.inject_workload();
    assert(under(a, c).inject_workload() == under(b, c));
    lemma_due_under(b, c);
    let d = b.deliver_due();
    lemma_retry_under(d, c, d.retries());
    assert(under(d, c).retry_blocked() == under(d.retry_blocked(), c));
    lemma_steps_under(d.retry_blocked(), c, w.config.processing_per_tick as nat);
}

/// The shape of the world is settled when it is made: overwriting the numbers
/// of actors and messages or the mailbox settings afterwards changes no run.
/// Trace, counters and rounds are those of a run without the change.
pub proof fn law_shape_is_settled(w: World, c: SimConfig, n: nat)
    requires
        same_course(w.config, c),
    ensures
        under(w, c).run(n) == under(w.run(n), c),
        under(w, c).rounds(n) == w.rounds(n),
        under(w, c).run(n).trace == w.run(n).trace,
        under(w, c).run(n).stats == w.run(n).stats,
    decreases n,
{
    assert(under(w, c).quiescent() == w.quiescent());
    if n > 0 && !w.quiescent() {
        lemma_round_under(w, c);
        law_shape_is_settled(w.round(), c, (n - 1) as nat);
    }
}

} // verus!
