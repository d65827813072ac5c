//! What each operation of the simulation does to the world, in terms of the
//! random words that it draws and of what can be read off the world.
use crate::registry::ActorState;
use crate::scheduler::{is_viable, observed, ran};
use crate::sim::config::SimConfig;
use crate::sim::executor::{ExecRecord, ExecTag};
use crate::sim::faults::{
    lemma_ranged_within, lemma_scaled_below, lemma_word_for, word, xoshiro_drawn, xoshiro_seeded,
    Probability,
};
use crate::sim::headroom::has_room_for;
use crate::sim::names::{
    actor_name_spec, law_identifiers_tell_apart, sim_id, supervisor_name_spec,
};
use crate::sim::scheduler::SimTaskView;
use crate::sim::stats::SimOutcome;
use crate::sim::trace::{fnv1a_spec, trace_encoded, RejectReason, TraceOp};
use crate::sim::world::{
    batch_priority, later_slot, DeliveryView, LaterView, LedgerView, Plan, StatsView, World,
};
use crate::sim::soundness::granted;
use crate::sim::{account_ok, counts_ok, identities_ok, identity_ok, reports, DEFAULT_STEP_BUDGET};
use crate::sums::sum_of;
use crate::supervisor::{ChildState, RestartPolicy};
use crate::{ActorId, MessageView, PayloadView, Priority};
use vstd::prelude::*;

verus! {

/// Whether the second trace goes on where the first ends.
pub open spec fn continues(before: Seq<TraceOp>, after: Seq<TraceOp>) -> bool {
    &&& before.len() <= after.len()
    &&& forall|i: int| 0 <= i < before.len() ==> #[trigger] after[i] == before[i]
}

/// Delivering and postponing only add to the trace.
proof fn lemma_deliver_continues(w: World, d: DeliveryView, delay: int)
    ensures
        continues(w.trace, w.attempt(d).trace),
        continues(w.trace, w.deliver(d, delay).trace),
{
}

/// The target of an injected event is drawn from all actors: it is the one at
/// the next word's share of them, so every actor is the target for some word.
/// The entry that injecting the event adds to the trace names it, and the
/// first identity not given out yet.
pub proof fn law_event_target(w: World, a: int)
    requires
        0 < w.actors.len() <= u64::MAX,
        0 <= a < w.actors.len(),
    ensures
        ({
            let n = w.actors.len() as int;
            let target = (xoshiro_drawn(w.rng).0 as int * n) / 0x1_0000_0000_0000_0000;
            let at = w.trace.len() as int;
            let trace = w.inject_one().trace;
            &&& 0 <= target < n
            &&& trace.len() > at
            &&& forall|i: int| 0 <= i < at ==> #[trigger] trace[i] == w.trace[i]
            &&& match trace[at] {
                TraceOp::Send { mid, to } => mid == w.next_mid as u64 && to == target,
                TraceOp::BatchSend { first, len, to } => first == w.next_mid as u64 && 2 <= len <= 3
                    && to == target,
                _ => false,
            }
            &&& exists|x: u64| (#[trigger] (x as int * n)) / 0x1_0000_0000_0000_0000 == a
        }),
{
    let n = w.actors.len() as int;
    lemma_scaled_below(word(w.rng), n);
    let x = lemma_word_for(n, a);
    assert((x as int * n) / 0x1_0000_0000_0000_0000 == a);
    lemma_ranged_within(w.rng_batch(), 2, w.batch_max());
    let plan = w.plan();
    let v = w.planned().announced(plan);
    let d = w.planned().event_delivery(plan);
    lemma_deliver_continues(v, d, plan.delay as int);
    let c = v.deliver(d, plan.delay as int);
    let e = World {
        stats: StatsView { duplicates: c.stats.duplicates + 1, ..c.stats },
        ..c
    };
    lemma_deliver_continues(e, d, plan.delay + 2);
    assert(continues(v.trace, w.inject_one().trace));
    assert(v.trace[w.trace.len() as int] == w.inject_one().trace[w.trace.len() as int]);
    assert forall|i: int| 0 <= i < w.trace.len() implies #[trigger] w.inject_one().trace[i]
        == w.trace[i] by {
        assert(v.trace[i] == w.trace[i]);
    }
}

/// What the stream decides for an event, word by word. The first word gives
/// the target. While more than one message is left, the next makes the event a
/// batch one time in eight, and a batch has two or three messages, of which
/// another word decides where three are left. The next word makes it urgent
/// one time in ten. Then come the faults: whether the transport rejects the
/// event, whether it is late and by how many ticks, and whether it is
/// duplicated; an event that is rejected is neither late nor duplicated.
pub proof fn law_event_plan(w: World)
    requires
        0 < w.actors.len() <= u64::MAX,
        w.next_mid < w.budget() <= u64::MAX,
        0 <= w.next_mid,
    ensures
        ({
            let f = w.config.faults;
            let more = w.mid_times.len() - w.next_mid;
            let s1 = xoshiro_drawn(w.rng).1;
            let batch = more > 1 && xoshiro_drawn(s1).0 < 0x2000_0000_0000_0000;
            let s2 = if more > 1 {
                xoshiro_drawn(s1).1
            } else {
                s1
            };
            let third = batch && more > 2;
            let s3 = if third {
                xoshiro_drawn(s2).1
            } else {
                s2
            };
            let s4 = xoshiro_drawn(s3).1;
            let rejected = match f.send_reject_prob {
                Probability::Never => false,
                Probability::Below(t) => (xoshiro_drawn(s4).0 as int) < 2048 * t as int,
            };
            let s5 = if f.send_reject_prob is Never {
                s4
            } else {
                xoshiro_drawn(s4).1
            };
            let late = !rejected && match f.delay_prob {
                Probability::Never => false,
                Probability::Below(t) => (xoshiro_drawn(s5).0 as int) < 2048 * t as int,
            };
            let s6 = if rejected || f.delay_prob is Never {
                s5
            } else {
                xoshiro_drawn(s5).1
            };
            let free = late && f.delay_ticks_min < f.delay_ticks_max;
            let s7 = if free {
                xoshiro_drawn(s6).1
            } else {
                s6
            };
            let duplicate = !rejected && match f.duplicate_prob {
                Probability::Never => false,
                Probability::Below(t) => (xoshiro_drawn(s7).0 as int) < 2048 * t as int,
            };
            let s8 = if rejected || f.duplicate_prob is Never {
                s7
            } else {
                xoshiro_drawn(s7).1
            };
            let p = w.plan();
            &&& p.to as int == (xoshiro_drawn(w.rng).0 as int * w.actors.len() as int)
                / 0x1_0000_0000_0000_0000
            &&& p.len as int == (if !batch {
                1int
            } else if third && xoshiro_drawn(s2).0 >= 0x8000_0000_0000_0000 {
                3
            } else {
                2
            })
            &&& p.priority == (if 10 * (xoshiro_drawn(s3).0 as int / 2048)
                < 9_007_199_254_740_992 {
                Priority::High
            } else {
                Priority::Normal
            })
            &&& p.rejected == rejected
            &&& p.delay as int == (if !late {
                0
            } else if !free {
                f.delay_ticks_min as int
            } else {
                f.delay_ticks_min + (xoshiro_drawn(s6).0 as int * (f.delay_ticks_max
                    - f.delay_ticks_min + 1)) / 0x1_0000_0000_0000_0000
            })
            &&& p.duplicate == duplicate
            &&& w.planned() == (World { rng: s8, ..w })
        }),
{
    let f = w.config.faults;
    lemma_scaled_below(word(w.rng), w.actors.len() as int);
    lemma_ranged_within(w.rng_batch(), 2, w.batch_max());
    lemma_ranged_within(w.rng_delay(), f.delay_ticks_min, f.delay_ticks_max);
    lemma_scaled_below(word(w.rng_batch()), 2);
    if f.delay_ticks_min < f.delay_ticks_max {
        lemma_scaled_below(word(w.rng_delay()), f.delay_ticks_max - f.delay_ticks_min + 1);
    }
}

/// What an event carries: as many messages as it has identities, consecutive
/// ones from the first not given out yet; each message holds the eight bytes
/// of its identity, is from nobody, and has the event's priority.
pub proof fn law_event_messages(w: World, plan: Plan, i: int)
    requires
        0 <= i < plan.len,
        0 <= w.next_mid,
        w.next_mid + plan.len <= u64::MAX,
    ensures
        ({
            let d = w.event_delivery(plan);
            &&& d.ord == plan.to
            &&& !d.was_blocked
            &&& d.mids.len() == plan.len
            &&& d.msgs.len() == plan.len
            &&& d.mids[i] == w.next_mid + i
            &&& d.msgs[i].sender is None
            &&& d.msgs[i].priority == plan.priority
            &&& d.msgs[i].payload == PayloadView::Custom(
                seq![
                    (d.mids[i] as int % 256) as u8,
                    (d.mids[i] as int / 0x100 % 256) as u8,
                    (d.mids[i] as int / 0x1_0000 % 256) as u8,
                    (d.mids[i] as int / 0x100_0000 % 256) as u8,
                    (d.mids[i] as int / 0x1_0000_0000 % 256) as u8,
                    (d.mids[i] as int / 0x100_0000_0000 % 256) as u8,
                    (d.mids[i] as int / 0x1_0000_0000_0000 % 256) as u8,
                    (d.mids[i] as int / 0x100_0000_0000_0000 % 256) as u8,
                ],
            )
        }),
{
    crate::bytes::law_word_layout(w.event_delivery(plan).mids[i]);
}

/// The priority of a list of messages is that of one of them, and none of them
/// is more urgent; it is normal for an empty list.
pub proof fn law_batch_priority(msgs: Seq<MessageView>) -> (k: int)
    ensures
        msgs.len() == 0 ==> batch_priority(msgs) == Priority::Normal,
        msgs.len() > 0 ==> 0 <= k < msgs.len() && batch_priority(msgs) == msgs[k].priority,
        forall|i: int|
            0 <= i < msgs.len() ==> {
                let a = (#[trigger] msgs[i]).priority;
                let b = batch_priority(msgs);
                &&& a == Priority::Critical ==> b == Priority::Critical
                &&& a == Priority::High ==> b == Priority::Critical || b == Priority::High
                &&& b == Priority::Low ==> a == Priority::Low
            },
    decreases msgs.len(),
{
    if msgs.len() <= 1 {
        0
    } else {
        let front = msgs.drop_last();
        let k = law_batch_priority(front);
        let n = msgs.len() - 1;
        assert forall|i: int| 0 <= i < msgs.len() implies {
            let a = (#[trigger] msgs[i]).priority;
            let b = batch_priority(msgs);
            &&& a == Priority::Critical ==> b == Priority::Critical
            &&& a == Priority::High ==> b == Priority::Critical || b == Priority::High
            &&& b == Priority::Low ==> a == Priority::Low
        } by {
            if i < n {
                assert(front[i] == msgs[i]);
            }
        }
        if msgs.last().priority.level() >= batch_priority(front).level() {
            n
        } else {
            k
        }
    }
}

/// What one attempt to deliver comes to. A target that is neither new nor
/// running rejects every message of the delivery, and each is lost. A target
/// whose mailbox cannot take all of them leaves the delivery parked behind the
/// others, and none is taken. Otherwise all of them go to the end of the
/// mailbox, in order, and one task for all of them can run; the latch is set
/// where the messages then held come to the configured share of the capacity.
pub proof fn law_delivery_attempt(w: World, d: DeliveryView)
    requires
        d.ord < w.actors.len(),
        w.actors.len() == w.ledger.len(),
    ensures
        ({
            let o = d.ord as int;
            let id = w.actors[o];
            let e = w.registry.entries[id.0];
            let live = w.registry.entries.contains_key(id.0) && (e.state == ActorState::Creating
                || e.state == ActorState::Running);
            let held = e.mailbox.queue.len() + d.msgs.len();
            let v = w.attempt(d);
            &&& !live ==> {
                &&& v == (World {
                    mid_lost: v.mid_lost,
                    trace: v.trace,
                    stats: (StatsView { rejected: w.stats.rejected + d.mids.len(), ..w.stats }),
                    ..w
                })
                &&& v.trace == w.trace + Seq::new(
                    d.mids.len(),
                    |i: int|
                        TraceOp::Reject {
                            mid: d.mids[i],
                            to: d.ord,
                            reason: RejectReason::DeadTarget,
                        },
                )
                &&& v.mid_lost.len() == w.mid_lost.len()
                &&& forall|i: int|
                    0 <= i < w.mid_lost.len() ==> #[trigger] v.mid_lost[i] == (w.mid_lost[i]
                        || d.mids.contains(i as u64))
            }
            &&& live && held > e.mailbox.config.capacity ==> v == (World {
                blocked: w.blocked.push((DeliveryView { was_blocked: true, ..d })),
                stats: (StatsView { blocked: w.stats.blocked + 1, ..w.stats }),
                trace: if d.was_blocked || d.mids.len() == 0 {
                    w.trace
                } else {
                    w.trace.push(
                        TraceOp::Blocked { first: d.mids[0], len: d.mids.len() as u64, to: d.ord },
                    )
                },
                ..w
            })
            &&& live && held <= e.mailbox.config.capacity ==> {
                let f = v.registry.entries[id.0];
                &&& v == (World {
                    registry: v.registry,
                    ready: w.ready.pushed(
                        (SimTaskView {
                            ord: d.ord,
                            id,
                            priority: batch_priority(d.msgs),
                            msgs: d.msgs,
                            mids: d.mids,
                        }),
                    ),
                    ledger: w.ledger.update(
                        o,
                        (LedgerView {
                            delivered: w.ledger[o].delivered + d.msgs.len(),
                            queued: w.ledger[o].queued + d.mids.len(),
                            ..w.ledger[o]
                        }),
                    ),
                    stats: (StatsView {
                        delivered: w.stats.delivered + d.msgs.len(),
                        unblocked: if d.was_blocked {
                            w.stats.unblocked + 1
                        } else {
                            w.stats.unblocked
                        },
                        ..w.stats
                    }),
                    trace: if d.mids.len() == 0 {
                        w.trace
                    } else {
                        w.trace.push(
                            TraceOp::Deliver {
                                first: d.mids[0],
                                len: d.mids.len() as u64,
                                to: d.ord,
                            },
                        )
                    },
                    ..w
                })
                &&& v.registry.config == w.registry.config
                &&& v.registry.entries.dom() == w.registry.entries.dom()
                &&& forall|k: u128|
                    k != id.0 && w.registry.entries.contains_key(k)
                        ==> #[trigger] v.registry.entries[k] == w.registry.entries[k]
                &&& f.name == e.name
                &&& f.state == e.state
                &&& f.mailbox.config == e.mailbox.config
                &&& f.mailbox.queue == e.mailbox.queue + d.msgs
                &&& f.mailbox.backpressure == (e.mailbox.backpressure || (d.msgs.len() > 0 && 1000
                    * (held + 1) > e.mailbox.config.capacity as int
                    * e.mailbox.config.backpressure_threshold as int))
            }
        }),
{
    let o = d.ord as int;
    let id = w.actors[o];
    let e = w.registry.entries[id.0];
    let v = w.attempt(d);
    let live = w.registry.entries.contains_key(id.0) && (e.state == ActorState::Creating
        || e.state == ActorState::Running);
    assert(live == is_viable(w.registry, id));
    if !live {
        assert(v.trace =~= w.trace + Seq::new(
            d.mids.len(),
            |i: int|
                TraceOp::Reject { mid: d.mids[i], to: d.ord, reason: RejectReason::DeadTarget },
        ));
    } else if e.mailbox.queue.len() + d.msgs.len() <= e.mailbox.config.capacity {
        let share = e.mailbox.config.capacity as int
            * e.mailbox.config.backpressure_threshold as int;
        assert(share >= 0) by (nonlinear_arith)
            requires
                share == e.mailbox.config.capacity as int
                    * e.mailbox.config.backpressure_threshold as int,
                e.mailbox.config.capacity >= 0,
                e.mailbox.config.backpressure_threshold >= 0,
        ;
        assert(e.mailbox.config.pressure_point() == share / 1000);
        assert(v.registry.entries.dom() =~= w.registry.entries.dom());
    }
}

/// A delivery that is postponed joins the others behind every one that lands
/// at the same tick or before and ahead of every one that lands after, and
/// lands so many ticks later. Nothing else happens until then. One that is not
/// postponed is attempted at once.
pub proof fn law_postponed(w: World, d: DeliveryView, delay: int) -> (p: int)
    ensures
        delay <= 0 ==> w.deliver(d, delay) == w.attempt(d),
        delay > 0 ==> {
            let at = w.tick + delay;
            let v = w.deliver(d, delay);
            &&& 0 <= p <= w.delayed.len()
            &&& v == (World { delayed: v.delayed, next_seq: w.next_seq + 1, ..w })
            &&& v.delayed == w.delayed.take(p) + seq![
                (LaterView { at, seq: w.next_seq + 1, delivery: d }),
            ] + w.delayed.skip(p)
            &&& p > 0 ==> w.delayed[p - 1].at <= at
            &&& forall|j: int| p <= j < w.delayed.len() ==> (#[trigger] w.delayed[j]).at > at
        },
{
    let at = w.tick + delay;
    let p = later_slot(w.delayed, at);
    lemma_slot(w.delayed, at);
    let later = LaterView { at, seq: w.next_seq + 1, delivery: d };
    assert(w.delayed.insert(p, later) =~= w.delayed.take(p) + seq![later] + w.delayed.skip(p));
    p
}

/// Where a delivery that lands at `at` is put.
proof fn lemma_slot(delayed: Seq<LaterView>, at: int)
    ensures
        ({
            let p = later_slot(delayed, at);
            &&& 0 <= p <= delayed.len()
            &&& p > 0 ==> delayed[p - 1].at <= at
            &&& forall|j: int| p <= j < delayed.len() ==> (#[trigger] delayed[j]).at > at
        }),
    decreases delayed.len(),
{
    if delayed.len() > 0 && delayed.last().at > at {
        let front = delayed.drop_last();
        lemma_slot(front, at);
        let p = later_slot(delayed, at);
        assert forall|j: int| p <= j < delayed.len() implies (#[trigger] delayed[j]).at > at by {
            if j < front.len() {
                assert(front[j] == delayed[j]);
            }
        }
        if p > 0 {
            assert(front[p - 1] == delayed[p - 1]);
        }
    }
}

/// What an event does once it is decided. It is traced, as one message or as a
/// batch, and its identities are given out. A rejected event ends there: each
/// of its messages is rejected as a fault, and lost. Any other is delivered
/// after its delay, and a duplicate of it two ticks after that.
pub proof fn law_event_carried_out(w: World, plan: Plan)
    ensures
        ({
            let d = w.event_delivery(plan);
            let v = World {
                next_mid: w.next_mid + plan.len,
                stats: (StatsView { injected: w.stats.injected + plan.len, ..w.stats }),
                trace: w.trace.push(
                    if plan.len > 1 {
                        TraceOp::BatchSend { first: w.next_mid as u64, len: plan.len, to: plan.to }
                    } else {
                        TraceOp::Send { mid: w.next_mid as u64, to: plan.to }
                    },
                ),
                ..w
            };
            let x = w.inject(plan);
            let first = v.deliver(d, plan.delay as int);
            &&& plan.rejected ==> {
                &&& x == (World {
                    mid_lost: x.mid_lost,
                    trace: x.trace,
                    stats: (StatsView { rejected: v.stats.rejected + d.mids.len(), ..v.stats }),
                    ..v
                })
                &&& x.trace == v.trace + Seq::new(
                    d.mids.len(),
                    |i: int|
                        TraceOp::Reject {
                            mid: d.mids[i],
                            to: plan.to,
                            reason: RejectReason::Fault,
                        },
                )
                &&& x.mid_lost.len() == w.mid_lost.len()
                &&& forall|i: int|
                    0 <= i < w.mid_lost.len() ==> #[trigger] x.mid_lost[i] == (w.mid_lost[i]
                        || d.mids.contains(i as u64))
            }
            &&& !plan.rejected && !plan.duplicate ==> x == first
            &&& !plan.rejected && plan.duplicate ==> x == (World {
                stats: (StatsView { duplicates: first.stats.duplicates + 1, ..first.stats }),
                ..first
            }).deliver(d, plan.delay + 2)
        }),
        w.inject_one() == w.planned().inject(w.plan()),
{
    let d = w.event_delivery(plan);
    if plan.rejected {
        assert(w.inject(plan).trace =~= w.announced(plan).trace + Seq::new(
            d.mids.len(),
            |i: int| TraceOp::Reject { mid: d.mids[i], to: plan.to, reason: RejectReason::Fault },
        ));
    }
}

/// How much of the workload a tick injects. As long as messages are left there
/// are as many events as the whole part of the rate, one more where the next
/// word falls short of its fractional part, and one in any case; they stop
/// when no message is left.
pub proof fn law_tick_workload(w: World, n: nat)
    ensures
        w.next_mid >= w.mid_times.len() ==> w.inject_workload() == w && w.inject_times(n) == w,
        w.next_mid < w.mid_times.len() ==> ({
            let rate = w.config.injection_rate;
            let more = match rate.fraction {
                Probability::Never => false,
                Probability::Below(t) => (xoshiro_drawn(w.rng).0 as int) < 2048 * t as int,
            };
            let events = if more {
                rate.whole as nat + 1
            } else if rate.whole == 0 {
                1
            } else {
                rate.whole as nat
            };
            let v = World {
                rng: if rate.fraction is Never {
                    w.rng
                } else {
                    xoshiro_drawn(w.rng).1
                },
                ..w
            };
            &&& w.inject_workload() == v.inject_times(events)
            &&& w.inject_times(0) == w
            &&& w.inject_times(n + 1) == w.inject_one().inject_times(n)
        }),
{
}

/// What the postponed deliveries do when a tick comes: the earliest lands as
/// long as it is due, is counted, and is attempted; the others wait.
pub proof fn law_due_land(w: World)
    ensures
        w.delayed.len() == 0 || w.delayed[0].at > w.tick ==> w.deliver_due() == w,
        w.delayed.len() > 0 && w.delayed[0].at <= w.tick ==> w.deliver_due() == (World {
            delayed: w.delayed.drop_first(),
            stats: (StatsView { delayed: w.stats.delayed + 1, ..w.stats }),
            ..w
        }).attempt(w.delayed[0].delivery).deliver_due(),
{
}

/// Parked deliveries are tried again from the one parked longest on, once each
/// in a tick, and no more of them than the configuration allows.
pub proof fn law_parked_retry(w: World, n: nat)
    ensures
        w.retry_blocked() == w.retry_times(
            if w.blocked.len() <= w.config.blocked_retries_per_tick {
                w.blocked.len()
            } else {
                w.config.blocked_retries_per_tick as nat
            },
        ),
        w.retry_times(0) == w,
        w.retry_times(n + 1) == (World { blocked: w.blocked.drop_first(), ..w }).attempt(
            w.blocked[0],
        ).retry_times(n),
{
}

/// All that is due lands, and nothing else: what is left of the postponed
/// deliveries are those from the first on that lands later, as many were
/// counted as landed, and time stands still meanwhile.
pub proof fn law_all_due_land(w: World) -> (k: int)
    ensures
        0 <= k <= w.delayed.len(),
        w.deliver_due().delayed == w.delayed.skip(k),
        w.deliver_due().stats.delayed == w.stats.delayed + k,
        w.deliver_due().tick == w.tick,
        w.deliver_due().clock == w.clock,
        w.deliver_due().rng == w.rng,
        forall|i: int| 0 <= i < k ==> (#[trigger] w.delayed[i]).at <= w.tick,
        k < w.delayed.len() ==> w.delayed[k].at > w.tick,
    decreases w.delayed.len(),
{
    law_due_land(w);
    if w.delayed.len() == 0 || w.delayed[0].at > w.tick {
        assert(w.delayed.skip(0) =~= w.delayed);
        0
    } else {
        let v = World {
            delayed: w.delayed.drop_first(),
            stats: StatsView { delayed: w.stats.delayed + 1, ..w.stats },
            ..w
        }.attempt(w.delayed[0].delivery);
        let k = law_all_due_land(v);
        assert(v.delayed.skip(k) =~= w.delayed.skip(k + 1));
        assert forall|i: int| 0 <= i < k + 1 implies (#[trigger] w.delayed[i]).at <= w.tick by {
            if i > 0 {
                assert(v.delayed[i - 1] == w.delayed[i]);
            }
        }
        k + 1
    }
}

/// What one step does: it takes a task as the policy says and takes the task's
/// messages off the account of what is queued. A task whose actor is neither
/// new nor running is dropped; its messages are lost, and it is traced if it
/// has any. Otherwise its actor crashes where the next word falls short of the
/// crash probability, and the task runs where it does not; a task without
/// application messages never crashes and takes no word.
pub proof fn law_step(w: World)
    ensures
        ({
            let t = w.ready.taken(w.config.policy, w.rng);
            let s = w.ready.after_draw(w.config.policy, w.rng);
            let o = t.ord as int;
            let e = w.registry.entries[t.id.0];
            let live = w.registry.entries.contains_key(t.id.0) && (e.state == ActorState::Creating
                || e.state == ActorState::Running);
            let v = World {
                ready: w.ready.after(w.config.policy, w.rng, w.tick as u64),
                rng: s,
                ledger: w.ledger.update(
                    o,
                    (LedgerView { queued: w.ledger[o].queued - t.mids.len(), ..w.ledger[o] }),
                ),
                ..w
            };
            let p = w.config.faults.crash_prob;
            let crash = t.mids.len() > 0 && match p {
                Probability::Never => false,
                Probability::Below(b) => (xoshiro_drawn(s).0 as int) < 2048 * b as int,
            };
            let x = World {
                rng: if t.mids.len() == 0 || p is Never {
                    s
                } else {
                    xoshiro_drawn(s).1
                },
                ..v
            };
            &&& !live ==> {
                &&& w.step() == (World {
                    mid_lost: w.step().mid_lost,
                    trace: if t.mids.len() == 0 {
                        w.trace
                    } else {
                        w.trace.push(
                            TraceOp::Discard {
                                first: t.mids[0],
                                len: t.mids.len() as u64,
                                to: t.ord,
                            },
                        )
                    },
                    ..v
                })
                &&& w.step().mid_lost.len() == w.mid_lost.len()
                &&& forall|i: int|
                    0 <= i < w.mid_lost.len() ==> #[trigger] w.step().mid_lost[i] == (w.mid_lost[i]
                        || t.mids.contains(i as u64))
            }
            &&& live && crash ==> w.step() == x.crash(t)
            &&& live && !crash ==> w.step() == x.perform(t)
        }),
{
}

/// A step whose crash is settled beforehand differs from a drawn one only in
/// that it takes no word for the crash.
pub proof fn law_settled_step(w: World, crash: bool)
    ensures
        ({
            let t = w.ready.taken(w.config.policy, w.rng);
            let s = w.ready.after_draw(w.config.policy, w.rng);
            let o = t.ord as int;
            let e = w.registry.entries[t.id.0];
            let live = w.registry.entries.contains_key(t.id.0) && (e.state == ActorState::Creating
                || e.state == ActorState::Running);
            let v = World {
                ready: w.ready.after(w.config.policy, w.rng, w.tick as u64),
                rng: s,
                ledger: w.ledger.update(
                    o,
                    (LedgerView { queued: w.ledger[o].queued - t.mids.len(), ..w.ledger[o] }),
                ),
                ..w
            };
            &&& !live ==> w.step_as(crash) == w.step()
            &&& live && crash && t.mids.len() > 0 ==> w.step_as(crash) == v.crash(t)
            &&& live && (!crash || t.mids.len() == 0) ==> w.step_as(crash) == v.perform(t)
        }),
{
}

/// The trace entry of an observed execution.
pub open spec fn shown(r: ExecRecord, to: u64) -> TraceOp {
    match r.tag {
        ExecTag::Custom(mid) => TraceOp::Process { mid, to },
        ExecTag::System => TraceOp::ProcessSystem { to },
    }
}

/// One for every observed execution of the given message.
pub open spec fn shows(mid: u64) -> spec_fn(ExecRecord) -> int {
    |r: ExecRecord|
        if r.tag == ExecTag::Custom(mid) {
            1
        } else {
            0
        }
}

/// One for every observed execution of an application message.
pub open spec fn shows_app() -> spec_fn(ExecRecord) -> int {
    |r: ExecRecord|
        if r.tag is Custom {
            1
        } else {
            0
        }
}

/// What accounting for the executions of one actor does: each is traced, in
/// order, and counts once as consumed by the actor; an application message
/// counts as processed, once more for its identity, and anything else as a
/// system message. Nothing else changes.
pub proof fn law_recorded(w: World, records: Seq<ExecRecord>, to: u64)
    requires
        to < w.ledger.len(),
        w.mid_times.len() <= u64::MAX,
        forall|i: int|
            0 <= i < records.len() ==> {
                &&& w.ordinals[(#[trigger] records[i]).actor.0] == to
                &&& records[i].tag matches ExecTag::Custom(mid) ==> mid < w.mid_times.len()
            },
    ensures
        ({
            let v = w.record_all(records);
            let o = to as int;
            let apps = sum_of(records, shows_app());
            &&& v == (World {
                ledger: w.ledger.update(
                    o,
                    (LedgerView {
                        consumed: w.ledger[o].consumed + records.len(),
                        ..w.ledger[o]
                    }),
                ),
                mid_times: v.mid_times,
                stats: (StatsView {
                    processed: w.stats.processed + apps,
                    system_processed: w.stats.system_processed + records.len() - apps,
                    ..w.stats
                }),
                trace: w.trace + records.map_values(|r: ExecRecord| shown(r, to)),
                ..w
            })
            &&& v.mid_times.len() == w.mid_times.len()
            &&& forall|i: int|
                0 <= i < w.mid_times.len() ==> #[trigger] v.mid_times[i] == w.mid_times[i]
                    + sum_of(records, shows(i as u64))
        }),
    decreases records.len(),
{
    let f = |r: ExecRecord| shown(r, to);
    let o = to as int;
    if records.len() == 0 {
        assert(w.trace + records.map_values(f) =~= w.trace);
        assert(w.ledger.update(o, w.ledger[o]) =~= w.ledger);
    } else {
        let front = records.drop_last();
        let r = records.last();
        assert forall|i: int| 0 <= i < front.len() implies {
            &&& w.ordinals[(#[trigger] front[i]).actor.0] == to
            &&& front[i].tag matches ExecTag::Custom(mid) ==> mid < w.mid_times.len()
        } by {
            assert(front[i] == records[i]);
        }
        law_recorded(w, front, to);
        let u = w.record_all(front);
        let v = w.record_all(records);
        assert(records[records.len() - 1] == r);
        assert(v == u.record(r));
        assert(v.trace =~= w.trace + records.map_values(f));
        let l = LedgerView { consumed: w.ledger[o].consumed + records.len(), ..w.ledger[o] };
        assert(v.ledger =~= w.ledger.update(o, l));
        assert forall|i: int| 0 <= i < w.mid_times.len() implies #[trigger] v.mid_times[i]
            == w.mid_times[i] + sum_of(records, shows(i as u64)) by {
            assert(u.mid_times[i] == w.mid_times[i] + sum_of(front, shows(i as u64)));
        }
    }
}

/// What running a task does to the world: its actor runs the messages, and the
/// executions observed are accounted for.
pub proof fn law_task_runs(w: World, t: SimTaskView)
    ensures
        w.perform(t) == (World {
            registry: ran(w.registry, t.id, t.msgs),
            ..w
        }).record_all(observed(w.registry, t.id, t.msgs)),
{
}

/// What a crash does. The actor's mailbox copies that were neither consumed
/// nor counted as dropped are dropped, and messages of the task that were
/// never processed are lost. Unless restarts are limited and used up, one is
/// granted, and the actor lives on under the identity of its next incarnation,
/// new and with nothing in its mailbox but the message that starts it.
/// Otherwise the actor is gone for good. The trace tells the crash, the answer
/// and what came of it, in this order.
pub proof fn law_crash(w: World, t: SimTaskView)
    requires
        t.ord < w.actors.len(),
        w.actors.len() == w.ledger.len(),
        w.actors.len() == w.supervisor.children.len(),
        w.actors[t.ord as int] == t.id,
        w.registry.entries.contains_key(t.id.0),
        w.registry.config.capacity >= 1,
        sim_id(t.ord, (w.ledger[t.ord as int].incarnation + 1) as u64) != t.id,
    ensures
        ({
            let o = t.ord as int;
            let l = w.ledger[o];
            let c = w.supervisor.children[o];
            let v = w.crash(t);
            let owed = if l.delivered - l.consumed >= 0 {
                l.delivered - l.consumed
            } else {
                0
            };
            let n = if owed - l.dropped >= 0 {
                owed - l.dropped
            } else {
                0
            };
            let spent = w.supervisor.max_restarts > 0 && c.restarts >= w.supervisor.max_restarts;
            let start = MessageView {
                sender: None,
                payload: PayloadView::Start,
                priority: Priority::Normal,
            };
            &&& v.mid_lost.len() == w.mid_lost.len()
            &&& forall|i: int|
                0 <= i < w.mid_lost.len() ==> #[trigger] v.mid_lost[i] == (w.mid_lost[i] || (
                t.mids.contains(i as u64) && w.mid_times[i] == 0))
            &&& forall|k: int|
                0 <= k < w.actors.len() && k != o ==> {
                    &&& #[trigger] v.actors[k] == w.actors[k]
                    &&& v.ledger[k] == w.ledger[k]
                    &&& v.supervisor.children[k] == w.supervisor.children[k]
                }
            &&& v.rng == w.rng
            &&& v.tick == w.tick
            &&& v.delayed == w.delayed
            &&& v.blocked == w.blocked
            &&& v.mid_times == w.mid_times
            &&& v.next_mid == w.next_mid
            &&& !v.registry.entries.contains_key(t.id.0)
            &&& spent ==> {
                &&& v.trace == w.trace + seq![
                    TraceOp::Crash { to: t.ord, dropped: n as u64 },
                    TraceOp::Restart { to: t.ord, allowed: false },
                    TraceOp::Kill { to: t.ord, dropped: 0 },
                ]
                &&& v.stats == (StatsView {
                    crashed: w.stats.crashed + 1,
                    dropped: w.stats.dropped + n,
                    escalated: w.stats.escalated + 1,
                    ..w.stats
                })
                &&& v.ledger[o] == (LedgerView { dropped: l.dropped + n, alive: false, ..l })
                &&& v.supervisor.children[o].state == ChildState::Stopped
                &&& v.supervisor.children[o].restarts == c.restarts
                &&& v.ready == w.ready
                &&& v.actors == w.actors
                &&& v.registry.entries == w.registry.entries.remove(t.id.0)
                &&& v.ordinals == w.ordinals.remove(t.id.0)
            }
            &&& !spent ==> {
                let id = sim_id(t.ord, (l.incarnation + 1) as u64);
                let e = v.registry.entries[id.0];
                &&& v.trace == w.trace + seq![
                    TraceOp::Crash { to: t.ord, dropped: n as u64 },
                    TraceOp::Restart { to: t.ord, allowed: true },
                    TraceOp::Spawn { ord: t.ord },
                ]
                &&& v.stats == (StatsView {
                    crashed: w.stats.crashed + 1,
                    dropped: w.stats.dropped + n,
                    restarted: w.stats.restarted + 1,
                    delivered: w.stats.delivered + 1,
                    ..w.stats
                })
                &&& v.ledger[o] == (LedgerView {
                    dropped: l.dropped + n,
                    delivered: l.delivered + 1,
                    incarnation: l.incarnation + 1,
                    ..l
                })
                &&& v.supervisor.children[o].state == ChildState::Running
                &&& v.supervisor.children[o].restarts == c.restarts + 1
                &&& v.actors[o] == id
                &&& v.ordinals == w.ordinals.remove(t.id.0).insert(id.0, t.ord)
                &&& v.ready == w.ready.pushed(
                    (SimTaskView {
                        ord: t.ord,
                        id,
                        priority: Priority::Normal,
                        msgs: seq![start],
                        mids: Seq::empty(),
                    }),
                )
                &&& v.registry.entries == w.registry.entries.remove(t.id.0).insert(id.0, e)
                &&& e.state == ActorState::Creating
                &&& e.name == Some(actor_name_spec(t.ord, (l.incarnation + 1) as u64))
                &&& e.mailbox.queue == seq![start]
                &&& e.mailbox.config == w.registry.config
            }
        }),
{
    let o = t.ord as int;
    let l = w.ledger[o];
    let x = w.struck(t).settle(t.ord, t.mids);
    assert(x.actors == w.actors);
    assert(x.registry.waiting(t.id) == 0);
    let v = w.crash(t);
    let spent = w.supervisor.max_restarts > 0 && w.supervisor.children[o].restarts
        >= w.supervisor.max_restarts;
    if spent {
        assert(v == x.answered(t.ord, false).kill(t.ord));
        assert(v.trace =~= w.trace + seq![
            TraceOp::Crash { to: t.ord, dropped: w.struck(t).destroyed(o) as u64 },
            TraceOp::Restart { to: t.ord, allowed: false },
            TraceOp::Kill { to: t.ord, dropped: 0 },
        ]);
        assert(v.registry.entries =~= w.registry.entries.remove(t.id.0));
    } else {
        let y = x.answered(t.ord, true).reborn(t.ord);
        let id = sim_id(t.ord, (l.incarnation + 1) as u64);
        let d = World::start_of(t.ord);
        assert(v == y.attempt(d));
        assert(y.actors[o] == id);
        assert(y.registry.entries[id.0].mailbox.queue.len() == 0);
        assert(y.registry.entries[id.0].state == ActorState::Creating);
        law_delivery_attempt(y, d);
        assert(v.registry.entries[id.0].mailbox.queue =~= d.msgs);
        assert(v.registry.entries =~= w.registry.entries.remove(t.id.0).insert(
            id.0,
            v.registry.entries[id.0],
        ));
        assert(v.trace =~= w.trace + seq![
            TraceOp::Crash { to: t.ord, dropped: w.struck(t).destroyed(o) as u64 },
            TraceOp::Restart { to: t.ord, allowed: true },
            TraceOp::Spawn { ord: t.ord },
        ]);
    }
}

/// What a round is: a tick passes, a millisecond on the clock unless it is at
/// its end; then the workload of the tick is injected, what is due lands, what
/// is parked is tried again, and up to so many tasks are processed one after
/// the other as the configuration says, fewer when no task is left.
pub proof fn law_round(w: World, n: nat)
    ensures
        w.round() == (World {
            tick: w.tick + 1,
            clock: (if w.clock + 1000 > u64::MAX {
                u64::MAX as int
            } else {
                w.clock + 1000
            }) as u64,
            ..w
        }).inject_workload().deliver_due().retry_blocked().step_times(
            w.config.processing_per_tick as nat,
        ),
        w.step_times(0) == w,
        w.ready.priority.len() + w.ready.ready.len() == 0 ==> w.step_times(n) == w,
        w.ready.priority.len() + w.ready.ready.len() > 0 ==> w.step_times(n + 1)
            == w.step().step_times(n),
{
}

/// When a world is at rest, and how far a run goes: it makes round after round
/// until the world is at rest or the rounds are used up, and tells how many it
/// made. A world is at rest exactly when the workload is injected, nothing is
/// postponed or parked, no task is left, and nothing waits in the mailbox of a
/// live actor.
pub proof fn law_rest(w: World, n: nat)
    ensures
        w.quiescent() == (w.next_mid >= w.mid_times.len() && w.delayed.len() == 0
            && w.blocked.len() == 0 && w.ready.priority.len() == 0 && w.ready.ready.len() == 0 && (
        forall|o: int|
            0 <= o < w.ledger.len() && (#[trigger] w.ledger[o]).alive && w.registry.entries.contains_key(
                w.actors[o].0,
            ) ==> w.registry.entries[w.actors[o].0].mailbox.queue.len() == 0)),
        w.run(0) == w,
        w.rounds(0) == 0,
        w.quiescent() ==> w.run(n) == w && w.rounds(n) == 0,
        !w.quiescent() ==> w.run(n + 1) == w.round().run(n) && w.rounds(n + 1) == 1
            + w.round().rounds(n),
{
    let settled = forall|o: int|
        0 <= o < w.ledger.len() && (#[trigger] w.ledger[o]).alive && w.registry.entries.contains_key(
            w.actors[o].0,
        ) ==> w.registry.entries[w.actors[o].0].mailbox.queue.len() == 0;
    if w.ready.priority.len() == 0 && w.ready.ready.len() == 0 {
        assert(w.ready.tasks().len() == 0);
        assert(w.ready.queued() == 0);
    }
    if settled {
        assert forall|o: int| 0 <= o < w.ledger.len() && (#[trigger] w.ledger[o]).alive implies
            w.registry.waiting(w.actors[o]) == 0 by {}
    }
    if w.quiescent() {
        assert forall|o: int|
            0 <= o < w.ledger.len() && (#[trigger] w.ledger[o]).alive
                && w.registry.entries.contains_key(w.actors[o].0) implies
            w.registry.entries[w.actors[o].0].mailbox.queue.len() == 0 by {
            assert(w.registry.waiting(w.actors[o]) == 0);
        }
    }
}

/// Whether the actor of an ordinal was spawned and nothing has happened to it:
/// it has the identity of its first incarnation, has not started, is supervised
/// as a permanent child, and has the message that starts it in its mailbox and
/// a task that delivers it.
pub open spec fn is_enlisted(w: World, id: ActorId, ord: u64) -> bool {
    let start = MessageView {
        sender: None,
        payload: PayloadView::Start,
        priority: Priority::Normal,
    };
    let i = ord as int;
    let e = w.registry.entries[id.0];
    let c = w.supervisor.children[i];
    &&& id == sim_id(ord, 0)
    &&& w.trace[i] == (TraceOp::Spawn { ord })
    &&& w.ordinals.contains_key(id.0)
    &&& w.ordinals[id.0] == ord
    &&& w.ledger[i].delivered == 1
    &&& w.ledger[i].consumed == 0
    &&& w.ledger[i].dropped == 0
    &&& w.ledger[i].queued == 0
    &&& w.ledger[i].incarnation == 0
    &&& w.ledger[i].alive
    &&& c.name == supervisor_name_spec(ord)
    &&& c.policy == RestartPolicy::Permanent
    &&& c.state == ChildState::Running
    &&& c.restarts == 0
    &&& w.registry.entries.contains_key(id.0)
    &&& e.name == Some(actor_name_spec(ord, 0))
    &&& e.state == ActorState::Creating
    &&& e.mailbox.config == w.registry.config
    &&& e.mailbox.queue == seq![start]
    &&& w.ready.ready[i].ord == ord
    &&& w.ready.ready[i].id == id
    &&& w.ready.ready[i].priority == Priority::Normal
    &&& w.ready.ready[i].msgs == seq![start]
    &&& w.ready.ready[i].mids.len() == 0
}

/// What a new simulation is: nothing has been injected, and every actor was
/// spawned, in order, under the identity of its first incarnation; each has
/// not started, is supervised as a permanent child, and has the message that
/// starts it in its mailbox and a task that delivers it.
pub proof fn law_new_world(seed: u64, config: SimConfig, n: nat)
    requires
        n <= u64::MAX,
        config.mailbox.capacity >= 1,
    ensures
        ({
            let w = World::void(seed, config).spawn_first(n);
            &&& w.seed == seed
            &&& w.config == config
            &&& w.rng == xoshiro_seeded(seed)
            &&& w.clock == 0
            &&& w.tick == 0
            &&& w.next_mid == 0
            &&& w.next_seq == 0
            &&& w.delayed.len() == 0
            &&& w.blocked.len() == 0
            &&& w.mid_times.len() == config.messages
            &&& w.mid_lost.len() == config.messages
            &&& forall|i: int| 0 <= i < config.messages ==> #[trigger] w.mid_times[i] == 0
            &&& forall|i: int| 0 <= i < config.messages ==> !#[trigger] w.mid_lost[i]
            &&& w.stats == (StatsView { delivered: n as int, ..StatsView::zero() })
            &&& w.supervisor.max_restarts == config.max_restarts
            &&& w.registry.config == config.mailbox
            &&& w.ready.priority.len() == 0
            &&& w.ready.last_served == Map::<u128, u64>::empty()
            &&& w.trace.len() == n
            &&& w.actors.len() == n
            &&& w.ledger.len() == n
            &&& w.ready.ready.len() == n
            &&& w.supervisor.children.len() == n
            &&& forall|k: u128|
                #![trigger w.registry.entries.contains_key(k)]
                w.registry.entries.contains_key(k) ==> exists|i: int|
                    0 <= i < n && k == (#[trigger] w.actors[i]).0
            &&& forall|i: int| 0 <= i < n ==> is_enlisted(w, #[trigger] w.actors[i], i as u64)
        }),
        World::created(seed, config) == World::void(seed, config).spawn_first(
            config.actors as nat,
        ),
    decreases n,
{
    if n > 0 {
        let m = (n - 1) as nat;
        law_new_world(seed, config, m);
        let u = World::void(seed, config).spawn_first(m);
        let ord = m as u64;
        let id = sim_id(ord, 0);
        let x = u.enrolled(ord);
        let d = World::start_of(ord);
        let w = World::void(seed, config).spawn_first(n);
        assert(w == x.attempt(d));
        assert(x.actors[m as int] == id);
        assert(x.registry.entries[id.0].mailbox.queue.len() == 0);
        law_delivery_attempt(x, d);
        assert(w.registry.entries[id.0].mailbox.queue =~= d.msgs);
        assert forall|i: int| 0 <= i < m implies #[trigger] u.actors[i] != id by {
            law_identifiers_tell_apart(i as u64, 0, ord, 0);
        }
        assert forall|k: u128| #[trigger] w.registry.entries.contains_key(k) implies exists|i: int|
            0 <= i < n && k == (#[trigger] w.actors[i]).0 by {
            if k == id.0 {
                assert(k == w.actors[m as int].0);
            } else {
                assert(u.registry.entries.contains_key(k));
                let i = choose|i: int| 0 <= i < m && k == (#[trigger] u.actors[i]).0;
                assert(k == w.actors[i].0);
            }
        }
        assert forall|i: int| 0 <= i < n implies is_enlisted(w, #[trigger] w.actors[i], i as u64) by {
            if i < m {
                assert(w.actors[i] == u.actors[i]);
                assert(is_enlisted(u, u.actors[i], i as u64));
                assert(w.supervisor.children[i] == u.supervisor.children[i]);
            } else {
                assert(w.actors[i] == id);
                assert(w.ready.ready[i] == x.task_for(d));
            }
        }
    }
}

/// What the audits say. After a round: of every live actor that is registered,
/// as many messages wait as were delivered and neither consumed nor dropped;
/// and where restarts are limited, no more were granted to all actors together
/// than the limit for each. At rest: every injected message was processed or
/// lost, and none twice where nothing is duplicated.
pub proof fn law_audits(w: World, o: int, i: int)
    requires
        0 <= o < w.ledger.len(),
        0 <= i < w.next_mid,
    ensures
        counts_ok(w) && w.ledger[o].alive && w.registry.entries.contains_key(w.actors[o].0) ==> ({
            let l = w.ledger[o];
            let owed = if l.delivered >= l.consumed {
                l.delivered - l.consumed
            } else {
                0
            };
            w.registry.entries[w.actors[o].0].mailbox.queue.len() == (if owed >= l.dropped {
                owed - l.dropped
            } else {
                0
            })
        }),
        counts_ok(w) && w.config.max_restarts > 0 ==> w.supervisor.total_restarts()
            <= w.config.max_restarts * w.actors.len(),
        identities_ok(w) ==> w.mid_times[i] >= 1 || w.mid_lost[i],
        identities_ok(w) && w.config.faults.duplicate_prob is Never ==> w.mid_times[i] <= 1,
{
    if counts_ok(w) {
        assert(account_ok(w, o));
    }
    if identities_ok(w) {
        assert(identity_ok(w, i));
    }
}

/// When the audits fail: an account that does not come out, more restarts than
/// the limit, or a message that is neither processed nor lost.
pub proof fn law_audits_find(w: World, o: int, i: int)
    requires
        0 <= o < w.ledger.len(),
        0 <= i < w.next_mid,
    ensures
        w.ledger[o].alive && w.registry.entries.contains_key(w.actors[o].0) && w.ledger[o].delivered
            >= w.ledger[o].consumed + w.ledger[o].dropped && w.ledger[o].consumed >= 0
            && w.ledger[o].dropped >= 0 && w.registry.entries[w.actors[o].0].mailbox.queue.len()
            != w.ledger[o].delivered - w.ledger[o].consumed - w.ledger[o].dropped ==> !counts_ok(w),
        w.config.max_restarts > 0 && w.supervisor.total_restarts() > w.config.max_restarts
            * w.actors.len() ==> !counts_ok(w),
        w.mid_times[i] < 1 && !w.mid_lost[i] ==> !identities_ok(w),
        w.mid_times[i] > 1 && w.config.faults.duplicate_prob is Never ==> !identities_ok(w),
{
    law_audits(w, o, i);
}

/// What an outcome reports of a run.
pub proof fn law_outcome(w: World, n: nat, r: SimOutcome)
    requires
        reports(w, n, r),
    ensures
        r.seed == w.seed,
        r.quiesced == w.run(n).quiescent(),
        r.steps == w.rounds(n),
        r.trace_hash == fnv1a_spec(trace_encoded(w.run(n).trace)),
        r.trace_ops == w.run(n).trace.len(),
        r.stats.injected == w.run(n).stats.injected,
        r.stats.rejected == w.run(n).stats.rejected,
        r.stats.delivered == w.run(n).stats.delivered,
        r.stats.processed == w.run(n).stats.processed,
        r.stats.crashed == w.run(n).stats.crashed,
        r.stats.restarted == w.run(n).stats.restarted,
        r.stats.escalated == w.run(n).stats.escalated,
        r.stats.dropped == w.run(n).stats.dropped,
        r.stats.blocked == w.run(n).stats.blocked,
        r.stats.unblocked == w.run(n).stats.unblocked,
        r.stats.delayed == w.run(n).stats.delayed,
        r.stats.duplicates == w.run(n).stats.duplicates,
        r.stats.system_processed == w.run(n).stats.system_processed,
{
}

/// When there is room for so many rounds: there is somebody to send to if
/// anything is left to send; restarted actors can be told apart, because
/// restarts are few, messages are few, or nothing crashes; the events of a tick
/// can be counted; the last tick at which anything can land can be counted, and
/// so can the deliveries that can be parked; and the limits of the audits are
/// those that the world was run under.
pub proof fn law_room_for_rounds(w: World, n: nat)
    ensures
        has_room_for(w, n) == ({
            let c = w.config;
            let f = c.faults;
            let m = w.supervisor.max_restarts;
            let budget = w.mid_times.len() as int;
            let late = if f.delay_prob is Never {
                0
            } else if f.delay_ticks_max >= f.delay_ticks_min {
                f.delay_ticks_max as int
            } else {
                f.delay_ticks_min as int
            };
            let gap = if f.duplicate_prob is Never {
                0int
            } else {
                2
            };
            &&& w.actors.len() > 0 || w.next_mid >= budget
            &&& (0 < m && m < 2_097_152) || 2 * budget < 2_097_152 || f.crash_prob is Never
            &&& c.injection_rate.fraction is Never || c.injection_rate.whole
                < 0xffff_ffff_ffff_ffff
            &&& w.tick + n + late + gap <= 0xffff_ffff_ffff_ffff
            &&& w.stats.blocked + n * (9 * budget + w.actors.len()) <= 0xffff_ffff_ffff_ffff
            &&& c.max_restarts == 0 || (0 < m && m <= c.max_restarts)
            &&& f.duplicate_prob is Never ==> w.stats.duplicates == 0
        }),
        DEFAULT_STEP_BUDGET == 4_000_000,
{
}

/// What counts as a restart granted to an actor, and what the audit of counts
/// says of it.
pub proof fn law_grants(w: World, o: int, op: TraceOp)
    requires
        0 <= o < w.actors.len(),
    ensures
        granted(o)(op) == (match op {
            TraceOp::Restart { to, allowed } => if allowed && to == o {
                1int
            } else {
                0
            },
            _ => 0,
        }),
        w.config.max_restarts > 0 && sum_of(w.trace, granted(o)) > w.config.max_restarts
            ==> !counts_ok(w),
{
}

/// At the start every counter is zero.
pub proof fn law_zero_counters()
    ensures
        ({
            let z = StatsView::zero();
            &&& z.injected == 0
            &&& z.rejected == 0
            &&& z.delivered == 0
            &&& z.processed == 0
            &&& z.crashed == 0
            &&& z.restarted == 0
            &&& z.escalated == 0
            &&& z.dropped == 0
            &&& z.blocked == 0
            &&& z.unblocked == 0
            &&& z.delayed == 0
            &&& z.duplicates == 0
            &&& z.system_processed == 0
        }),
{
}

} // verus!
