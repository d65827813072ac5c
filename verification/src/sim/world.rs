//! The simulated world as a mathematical value, and what each step does to it.
//!
//! Every transition here is a function: a world together with its random
//! stream determines the next one. The simulation in [`crate::sim`] is proved
//! to move from world to world as these functions say.
use crate::bytes::word_bytes;
use crate::mailbox::MailboxView;
use crate::registry::RegistryView;
use crate::scheduler::{crashed, is_viable, observed, ran};
use crate::sim::clock::saturating_sum;
use crate::sim::config::SimConfig;
use crate::sim::executor::{ExecRecord, ExecTag};
use crate::sim::faults::{
    after_range, after_roll, after_word, ranged, rolled, scaled, word, xoshiro_seeded, FaultConfig,
    Probability,
};
use crate::sim::names::{actor_name_spec, sim_id, supervisor_name_spec};
use crate::sim::scheduler::{ReadyView, SimTaskView};
use crate::sim::trace::{RejectReason, TraceOp};
use crate::supervisor::{ChildState, RestartPolicy, SupervisorView};
use crate::{ActorId, MessageView, PayloadView, Priority};
use vstd::prelude::*;

verus! {

/// Simulated tick length in microseconds.
pub const TICK_MICROS: u64 = 1000;

/// Gap in ticks between a delivery and its duplicate copy.
pub const DUPLICATE_GAP_TICKS: u64 = 2;

/// Most messages in one injected batch.
pub const MAX_BATCH: u64 = 3;

/// Threshold of the probability that an injected event is a batch, 1/8.
pub const BATCH_SHARE: u64 = 1_125_899_906_842_624;

/// Threshold of the probability that an injected event is urgent, 0.1.
pub const URGENT_SHARE: u64 = 900_719_925_474_100;

/// Per-actor account of mailbox copies.
#[verifier::ext_equal]
pub struct LedgerView {
    /// Mailbox copies accepted (duplicates included).
    pub delivered: int,
    /// Messages processed per executor observation.
    pub consumed: int,
    /// Lost artifacts (crash drains, restart drops).
    pub dropped: int,
    /// Application messages currently sitting in queued tasks.
    pub queued: int,
    /// Current incarnation counter.
    pub incarnation: int,
    /// Registered (not escalated/killed).
    pub alive: bool,
}

/// A delivery that has not been accepted yet.
#[verifier::ext_equal]
pub struct DeliveryView {
    /// Target actor ordinal.
    pub ord: u64,
    /// The messages, in order.
    pub msgs: Seq<MessageView>,
    /// Identities of the application messages.
    pub mids: Seq<u64>,
    /// Whether the delivery has been parked before.
    pub was_blocked: bool,
}

/// A delivery that lands at a later tick.
#[verifier::ext_equal]
pub struct LaterView {
    /// The tick at which it lands.
    pub at: int,
    /// Its place among the deliveries that land at that tick.
    pub seq: int,
    /// What is delivered.
    pub delivery: DeliveryView,
}

/// Aggregate counters.
pub struct StatsView {
    /// Workload messages injected.
    pub injected: int,
    /// Sends rejected by fault or dead target (message-level).
    pub rejected: int,
    /// Deliveries accepted into a mailbox (duplicates included).
    pub delivered: int,
    /// Application messages processed.
    pub processed: int,
    /// Injected mid-message crashes.
    pub crashed: int,
    /// Supervised restarts granted.
    pub restarted: int,
    /// Actors permanently killed after escalation.
    pub escalated: int,
    /// Lost artifacts.
    pub dropped: int,
    /// Deliveries parked on a full mailbox.
    pub blocked: int,
    /// Deliveries that succeeded after having been parked.
    pub unblocked: int,
    /// Delayed deliveries that landed.
    pub delayed: int,
    /// Duplicate copies delivered.
    pub duplicates: int,
    /// System messages processed.
    pub system_processed: int,
}

impl StatsView {
    /// Nothing has happened.
    pub open spec fn zero() -> StatsView {
        StatsView {
            injected: 0,
            rejected: 0,
            delivered: 0,
            processed: 0,
            crashed: 0,
            restarted: 0,
            escalated: 0,
            dropped: 0,
            blocked: 0,
            unblocked: 0,
            delayed: 0,
            duplicates: 0,
            system_processed: 0,
        }
    }
}

/// The whole simulated world.
#[verifier::ext_equal]
pub struct World {
    /// The seed of the random stream.
    pub seed: u64,
    /// The run configuration.
    pub config: SimConfig,
    /// State of the random stream.
    pub rng: Seq<u8>,
    /// Simulated microseconds.
    pub clock: u64,
    /// The registered actors.
    pub registry: RegistryView,
    /// The supervisor, with the actors as its children.
    pub supervisor: SupervisorView,
    /// Current identifier per actor ordinal.
    pub actors: Seq<ActorId>,
    /// Identifier bits to ordinal, for current incarnations.
    pub ordinals: Map<u128, u64>,
    /// Per-actor accounts.
    pub ledger: Seq<LedgerView>,
    /// The tasks that can run.
    pub ready: ReadyView,
    /// Deliveries that land later, the earliest first.
    pub delayed: Seq<LaterView>,
    /// Deliveries parked on a full mailbox, the longest parked first.
    pub blocked: Seq<DeliveryView>,
    /// Deliveries postponed so far.
    pub next_seq: int,
    /// Identity of the next message to inject.
    pub next_mid: int,
    /// How often each message was processed.
    pub mid_times: Seq<int>,
    /// Whether a copy of each message was lost.
    pub mid_lost: Seq<bool>,
    /// Scheduling rounds so far.
    pub tick: int,
    /// The operations so far.
    pub trace: Seq<TraceOp>,
    /// Counters so far.
    pub stats: StatsView,
}

/// The system message that starts an actor.
pub open spec fn start_msg() -> MessageView {
    MessageView { sender: None, payload: PayloadView::Start, priority: Priority::Normal }
}

/// The application message of an identity.
pub open spec fn app_msg(mid: u64, priority: Priority) -> MessageView {
    MessageView { sender: None, payload: PayloadView::Custom(word_bytes(mid)), priority }
}

/// The application messages of a list of identities.
pub open spec fn app_msgs_of(mids: Seq<u64>, priority: Priority) -> Seq<MessageView> {
    mids.map_values(|mid: u64| app_msg(mid, priority))
}

/// `len` consecutive identities.
pub open spec fn mid_range(first: int, len: int) -> Seq<u64> {
    Seq::new(len as nat, |i: int| (first + i) as u64)
}

/// The most urgent priority of a list of messages, `Normal` for none.
pub open spec fn batch_priority(msgs: Seq<MessageView>) -> Priority
    decreases msgs.len(),
{
    if msgs.len() == 0 {
        Priority::Normal
    } else if msgs.len() == 1 {
        msgs[0].priority
    } else {
        let rest = batch_priority(msgs.drop_last());
        if msgs.last().priority.level() >= rest.level() {
            msgs.last().priority
        } else {
            rest
        }
    }
}

/// A mailbox after it accepted a list of messages.
pub open spec fn sent_all(mailbox: MailboxView, msgs: Seq<MessageView>) -> MailboxView {
    MailboxView {
        queue: mailbox.queue + msgs,
        backpressure: mailbox.backpressure || (msgs.len() > 0 && mailbox.queue.len() + msgs.len()
            >= mailbox.config.pressure_point()),
        ..mailbox
    }
}

/// `a - b`, held at zero.
pub open spec fn monus(a: int, b: int) -> int {
    if a >= b {
        a - b
    } else {
        0
    }
}

/// The lost flags after copies of the given messages were lost.
pub open spec fn lose(lost: Seq<bool>, mids: Seq<u64>) -> Seq<bool> {
    Seq::new(lost.len(), |i: int| lost[i] || mids.contains(i as u64))
}

/// The trace entries for rejecting messages.
pub open spec fn reject_ops(mids: Seq<u64>, to: u64, reason: RejectReason) -> Seq<TraceOp> {
    mids.map_values(|mid: u64| TraceOp::Reject { mid, to, reason })
}

/// The position at which a delivery landing at `at` is queued: after all that
/// land no later.
pub open spec fn later_slot(delayed: Seq<LaterView>, at: int) -> int
    decreases delayed.len(),
{
    if delayed.len() == 0 || delayed.last().at <= at {
        delayed.len() as int
    } else {
        later_slot(delayed.drop_last(), at)
    }
}

/// The most ticks by which a copy of an event can be postponed: the longest
/// delay, if there are any, and the gap of a duplicate, if there are any.
pub open spec fn longest_delay(faults: FaultConfig) -> int {
    (if faults.delay_prob is Never {
        0int
    } else if faults.delay_ticks_max <= faults.delay_ticks_min {
        faults.delay_ticks_min as int
    } else {
        faults.delay_ticks_max as int
    }) + (if faults.duplicate_prob is Never {
        0int
    } else {
        DUPLICATE_GAP_TICKS as int
    })
}

/// What the random stream decides for one injected event.
#[derive(Debug, Clone, Copy, PartialEq, Eq, Structural)]
pub struct Plan {
    /// Target actor ordinal.
    pub to: u64,
    /// Messages in the event.
    pub len: u64,
    /// Their priority.
    pub priority: Priority,
    /// Whether the transport rejects the event.
    pub rejected: bool,
    /// Ticks by which the delivery is postponed.
    pub delay: u64,
    /// Whether a second copy is delivered.
    pub duplicate: bool,
}

impl Plan {
    /// Ticks by which the last copy is postponed.
    pub open spec fn last_delay(self) -> int {
        self.delay + (if self.duplicate {
            DUPLICATE_GAP_TICKS as int
        } else {
            0
        })
    }
}

impl World {
    /// The number of messages that the workload injects.
    pub open spec fn budget(self) -> int {
        self.mid_times.len() as int
    }

    /// Whether a delivery to an actor would be rejected.
    pub open spec fn rejects(self, d: DeliveryView) -> bool {
        !is_viable(self.registry, self.actors[d.ord as int])
    }

    /// Whether a delivery to a live actor does not fit its mailbox.
    pub open spec fn lacks_room(self, d: DeliveryView) -> bool {
        let mailbox = self.registry.entries[self.actors[d.ord as int].0].mailbox;
        mailbox.config.capacity - mailbox.queue.len() < d.msgs.len()
    }

    /// Rejecting messages.
    pub open spec fn reject(self, mids: Seq<u64>, to: u64, reason: RejectReason) -> World {
        World {
            mid_lost: lose(self.mid_lost, mids),
            stats: StatsView {
                rejected: self.stats.rejected + mids.len(),
                ..self.stats
            },
            trace: self.trace + reject_ops(mids, to, reason),
            ..self
        }
    }

    /// Parking a delivery until its target has room. Only the first parking
    /// is traced.
    pub open spec fn park(self, d: DeliveryView) -> World {
        World {
            stats: StatsView { blocked: self.stats.blocked + 1, ..self.stats },
            trace: if d.mids.len() > 0 && !d.was_blocked {
                self.trace.push(
                    TraceOp::Blocked { first: d.mids[0], len: d.mids.len() as u64, to: d.ord },
                )
            } else {
                self.trace
            },
            blocked: self.blocked.push(DeliveryView { was_blocked: true, ..d }),
            ..self
        }
    }

    /// The task for a delivery.
    pub open spec fn task_for(self, d: DeliveryView) -> SimTaskView {
        SimTaskView {
            ord: d.ord,
            id: self.actors[d.ord as int],
            priority: batch_priority(d.msgs),
            msgs: d.msgs,
            mids: d.mids,
        }
    }

    /// Accepting a delivery: mailbox copies and a task.
    pub open spec fn accept(self, d: DeliveryView) -> World {
        let o = d.ord as int;
        let id = self.actors[o];
        World {
            registry: self.registry.with_mailbox(
                id,
                sent_all(self.registry.entries[id.0].mailbox, d.msgs),
            ),
            ledger: self.ledger.update(
                o,
                LedgerView {
                    delivered: self.ledger[o].delivered + d.msgs.len(),
                    queued: self.ledger[o].queued + d.mids.len(),
                    ..self.ledger[o]
                },
            ),
            stats: StatsView {
                delivered: self.stats.delivered + d.msgs.len(),
                unblocked: self.stats.unblocked + if d.was_blocked {
                    1int
                } else {
                    0
                },
                ..self.stats
            },
            trace: if d.mids.len() > 0 {
                self.trace.push(
                    TraceOp::Deliver { first: d.mids[0], len: d.mids.len() as u64, to: d.ord },
                )
            } else {
                self.trace
            },
            ready: self.ready.pushed(self.task_for(d)),
            ..self
        }
    }

    /// One delivery attempt: a dead target rejects, a full mailbox parks, and
    /// otherwise the whole batch is accepted.
    pub open spec fn attempt(self, d: DeliveryView) -> World {
        if self.rejects(d) {
            self.reject(d.mids, d.ord, RejectReason::DeadTarget)
        } else if self.lacks_room(d) {
            self.park(d)
        } else {
            self.accept(d)
        }
    }

    /// Postponing a delivery.
    pub open spec fn postpone(self, d: DeliveryView, delay: int) -> World {
        let later = LaterView { at: self.tick + delay, seq: self.next_seq + 1, delivery: d };
        World {
            next_seq: self.next_seq + 1,
            delayed: self.delayed.insert(later_slot(self.delayed, later.at), later),
            ..self
        }
    }

    /// Delivering now, or `delay` ticks later.
    pub open spec fn deliver(self, d: DeliveryView, delay: int) -> World {
        if delay > 0 {
            self.postpone(d, delay)
        } else {
            self.attempt(d)
        }
    }

    /// The delivery of the message that starts an actor.
    pub open spec fn start_of(ord: u64) -> DeliveryView {
        DeliveryView { ord, msgs: seq![start_msg()], mids: Seq::empty(), was_blocked: false }
    }

    /// A new actor, before its start message is delivered.
    pub open spec fn enrolled(self, ord: u64) -> World {
        let id = sim_id(ord, 0);
        World {
            registry: self.registry.with_new(id, Some(actor_name_spec(ord, 0))),
            supervisor: self.supervisor.started(
                supervisor_name_spec(ord),
                RestartPolicy::Permanent,
            ),
            actors: self.actors.push(id),
            ordinals: self.ordinals.insert(id.0, ord),
            ledger: self.ledger.push(
                LedgerView {
                    delivered: 0,
                    consumed: 0,
                    dropped: 0,
                    queued: 0,
                    incarnation: 0,
                    alive: true,
                },
            ),
            trace: self.trace.push(TraceOp::Spawn { ord }),
            ..self
        }
    }

    /// Spawning an actor.
    pub open spec fn spawn(self, ord: u64) -> World {
        self.enrolled(ord).deliver(World::start_of(ord), 0)
    }

    /// Spawning the first `n` actors.
    pub open spec fn spawn_first(self, n: nat) -> World
        decreases n,
    {
        if n == 0 {
            self
        } else {
            self.spawn_first((n - 1) as nat).spawn((n - 1) as u64)
        }
    }

    /// A world without actors.
    pub open spec fn void(seed: u64, config: SimConfig) -> World {
        World {
            seed,
            config,
            rng: xoshiro_seeded(seed),
            clock: 0,
            registry: RegistryView { config: config.mailbox, entries: Map::empty() },
            supervisor: SupervisorView {
                max_restarts: config.max_restarts,
                children: Seq::empty(),
            },
            actors: Seq::empty(),
            ordinals: Map::empty(),
            ledger: Seq::empty(),
            ready: ReadyView::empty(),
            delayed: Seq::empty(),
            blocked: Seq::empty(),
            next_seq: 0,
            next_mid: 0,
            mid_times: Seq::new(config.messages as nat, |i: int| 0),
            mid_lost: Seq::new(config.messages as nat, |i: int| false),
            tick: 0,
            trace: Seq::empty(),
            stats: StatsView::zero(),
        }
    }

    /// The world that a seed and a configuration make.
    pub open spec fn created(seed: u64, config: SimConfig) -> World {
        World::void(seed, config).spawn_first(config.actors as nat)
    }

    /// The stream after the target of an event was drawn.
    pub open spec fn rng_to(self) -> Seq<u8> {
        after_word(self.rng)
    }

    /// Whether the event is a batch.
    pub open spec fn draws_batch(self) -> bool {
        self.budget() - self.next_mid > 1 && rolled(self.rng_to(), Probability::Below(BATCH_SHARE))
    }

    /// The stream after it was decided whether the event is a batch.
    pub open spec fn rng_batch(self) -> Seq<u8> {
        if self.budget() - self.next_mid > 1 {
            after_word(self.rng_to())
        } else {
            self.rng_to()
        }
    }

    /// The most messages that the event can have.
    pub open spec fn batch_max(self) -> u64 {
        if self.budget() - self.next_mid < MAX_BATCH {
            (self.budget() - self.next_mid) as u64
        } else {
            MAX_BATCH
        }
    }

    /// The number of messages in the event.
    pub open spec fn draws_len(self) -> u64 {
        if self.draws_batch() {
            ranged(self.rng_batch(), 2, self.batch_max())
        } else {
            1
        }
    }

    /// The stream after the number of messages was drawn.
    pub open spec fn rng_len(self) -> Seq<u8> {
        if self.draws_batch() {
            after_range(self.rng_batch(), 2, self.batch_max())
        } else {
            self.rng_batch()
        }
    }

    /// The stream after the priority was drawn.
    pub open spec fn rng_priority(self) -> Seq<u8> {
        after_word(self.rng_len())
    }

    /// The stream after the transport accepted or rejected the event.
    pub open spec fn rng_reject(self) -> Seq<u8> {
        after_roll(self.rng_priority(), self.config.faults.send_reject_prob)
    }

    /// Whether the delivery is postponed.
    pub open spec fn draws_delay(self) -> bool {
        rolled(self.rng_reject(), self.config.faults.delay_prob)
    }

    /// The stream after it was decided whether the delivery is postponed.
    pub open spec fn rng_delay(self) -> Seq<u8> {
        after_roll(self.rng_reject(), self.config.faults.delay_prob)
    }

    /// The stream after the delay was drawn.
    pub open spec fn rng_ticks(self) -> Seq<u8> {
        if self.draws_delay() {
            after_range(
                self.rng_delay(),
                self.config.faults.delay_ticks_min,
                self.config.faults.delay_ticks_max,
            )
        } else {
            self.rng_delay()
        }
    }

    /// What the stream decides for the next event, in the order target, batch,
    /// priority, rejection, delay, duplicate.
    pub open spec fn plan(self) -> Plan {
        let rejected = rolled(self.rng_priority(), self.config.faults.send_reject_prob);
        Plan {
            to: scaled(word(self.rng), self.actors.len() as int),
            len: self.draws_len(),
            priority: if rolled(self.rng_len(), Probability::Below(URGENT_SHARE)) {
                Priority::High
            } else {
                Priority::Normal
            },
            rejected,
            delay: if !rejected && self.draws_delay() {
                ranged(
                    self.rng_delay(),
                    self.config.faults.delay_ticks_min,
                    self.config.faults.delay_ticks_max,
                )
            } else {
                0
            },
            duplicate: !rejected && rolled(self.rng_ticks(), self.config.faults.duplicate_prob),
        }
    }

    /// The world after the next event was decided, and nothing of it done.
    pub open spec fn planned(self) -> World {
        World {
            rng: if rolled(self.rng_priority(), self.config.faults.send_reject_prob) {
                self.rng_reject()
            } else {
                after_roll(self.rng_ticks(), self.config.faults.duplicate_prob)
            },
            ..self
        }
    }

    /// The identities of an event.
    pub open spec fn event_mids(self, plan: Plan) -> Seq<u64> {
        mid_range(self.next_mid, plan.len as int)
    }

    /// The delivery of an event.
    pub open spec fn event_delivery(self, plan: Plan) -> DeliveryView {
        DeliveryView {
            ord: plan.to,
            msgs: app_msgs_of(self.event_mids(plan), plan.priority),
            mids: self.event_mids(plan),
            was_blocked: false,
        }
    }

    /// The event is traced and counted.
    pub open spec fn announced(self, plan: Plan) -> World {
        World {
            next_mid: self.next_mid + plan.len,
            stats: StatsView { injected: self.stats.injected + plan.len, ..self.stats },
            trace: self.trace.push(
                if plan.len > 1 {
                    TraceOp::BatchSend {
                        first: self.next_mid as u64,
                        len: plan.len,
                        to: plan.to,
                    }
                } else {
                    TraceOp::Send { mid: self.next_mid as u64, to: plan.to }
                },
            ),
            ..self
        }
    }

    /// The first copy of the event is delivered or postponed.
    pub open spec fn first_copy(self, plan: Plan) -> World {
        self.announced(plan).deliver(self.event_delivery(plan), plan.delay as int)
    }

    /// Carrying out a planned event.
    pub open spec fn inject(self, plan: Plan) -> World {
        if plan.rejected {
            self.announced(plan).reject(self.event_mids(plan), plan.to, RejectReason::Fault)
        } else if plan.duplicate {
            let w = self.first_copy(plan);
            World {
                stats: StatsView { duplicates: w.stats.duplicates + 1, ..w.stats },
                ..w
            }.deliver(self.event_delivery(plan), plan.delay + DUPLICATE_GAP_TICKS)
        } else {
            self.first_copy(plan)
        }
    }

    /// Injecting one event.
    pub open spec fn inject_one(self) -> World {
        self.planned().inject(self.plan())
    }

    /// Injecting events until `n` are done or the workload is.
    pub open spec fn inject_times(self, n: nat) -> World
        decreases n,
    {
        if n == 0 || self.next_mid >= self.budget() {
            self
        } else {
            self.inject_one().inject_times((n - 1) as nat)
        }
    }

    /// The number of events injected in a tick: the whole part of the rate,
    /// and one more as the fractional part decides, but at least one.
    pub open spec fn attempts(self) -> nat {
        let n = self.config.injection_rate.whole + if rolled(
            self.rng,
            self.config.injection_rate.fraction,
        ) {
            1int
        } else {
            0
        };
        if n < 1 {
            1
        } else {
            n as nat
        }
    }

    /// Injecting the workload of a tick.
    pub open spec fn inject_workload(self) -> World {
        if self.next_mid >= self.budget() {
            self
        } else {
            World {
                rng: after_roll(self.rng, self.config.injection_rate.fraction),
                ..self
            }.inject_times(self.attempts())
        }
    }

    /// The earliest postponed delivery leaves the queue.
    pub open spec fn landed(self) -> World {
        World {
            delayed: self.delayed.drop_first(),
            stats: StatsView { delayed: self.stats.delayed + 1, ..self.stats },
            ..self
        }
    }

    /// Whether a postponed delivery is due.
    pub open spec fn is_due(self) -> bool {
        self.delayed.len() > 0 && self.delayed[0].at <= self.tick
    }

    /// Delivering everything that is due.
    pub open spec fn deliver_due(self) -> World
        decreases self.delayed.len(),
    {
        if !self.is_due() {
            self
        } else {
            self.landed().attempt(self.delayed[0].delivery).deliver_due()
        }
    }

    /// The delivery parked longest leaves the queue.
    pub open spec fn unparked(self) -> World {
        World { blocked: self.blocked.drop_first(), ..self }
    }

    /// Trying the `n` deliveries parked longest again.
    pub open spec fn retry_times(self, n: nat) -> World
        decreases n,
    {
        if n == 0 {
            self
        } else {
            self.unparked().attempt(self.blocked[0]).retry_times((n - 1) as nat)
        }
    }

    /// The number of parked deliveries that a tick tries again.
    pub open spec fn retries(self) -> nat {
        if self.config.blocked_retries_per_tick < self.blocked.len() {
            self.config.blocked_retries_per_tick as nat
        } else {
            self.blocked.len()
        }
    }

    /// Trying parked deliveries again.
    pub open spec fn retry_blocked(self) -> World {
        self.retry_times(self.retries())
    }

    /// A task leaves the ready set.
    pub open spec fn picked(self) -> World {
        World {
            ready: self.ready.after(self.config.policy, self.rng, self.tick as u64),
            rng: self.ready.after_draw(self.config.policy, self.rng),
            ..self
        }
    }

    /// The task that runs next.
    pub open spec fn next_task(self) -> SimTaskView {
        self.ready.taken(self.config.policy, self.rng)
    }

    /// The messages of a task are no longer queued.
    pub open spec fn dequeued(self, t: SimTaskView) -> World {
        let o = t.ord as int;
        World {
            ledger: self.ledger.update(
                o,
                LedgerView { queued: self.ledger[o].queued - t.mids.len(), ..self.ledger[o] },
            ),
            ..self
        }
    }

    /// Discarding a task whose actor is dead.
    pub open spec fn discard(self, t: SimTaskView) -> World {
        World {
            mid_lost: lose(self.mid_lost, t.mids),
            trace: if t.mids.len() > 0 {
                self.trace.push(
                    TraceOp::Discard { first: t.mids[0], len: t.mids.len() as u64, to: t.ord },
                )
            } else {
                self.trace
            },
            ..self
        }
    }

    /// Accounting for one observed execution.
    pub open spec fn record(self, r: ExecRecord) -> World {
        let to = self.ordinals[r.actor.0];
        let o = to as int;
        let ledger = self.ledger.update(
            o,
            LedgerView { consumed: self.ledger[o].consumed + 1, ..self.ledger[o] },
        );
        match r.tag {
            ExecTag::Custom(mid) => World {
                ledger,
                mid_times: self.mid_times.update(mid as int, self.mid_times[mid as int] + 1),
                stats: StatsView { processed: self.stats.processed + 1, ..self.stats },
                trace: self.trace.push(TraceOp::Process { mid, to }),
                ..self
            },
            ExecTag::System => World {
                ledger,
                stats: StatsView {
                    system_processed: self.stats.system_processed + 1,
                    ..self.stats
                },
                trace: self.trace.push(TraceOp::ProcessSystem { to }),
                ..self
            },
        }
    }

    /// Accounting for observed executions.
    pub open spec fn record_all(self, records: Seq<ExecRecord>) -> World
        decreases records.len(),
    {
        if records.len() == 0 {
            self
        } else {
            self.record_all(records.drop_last()).record(records.last())
        }
    }

    /// Running a task to its end.
    pub open spec fn perform(self, t: SimTaskView) -> World {
        World { registry: ran(self.registry, t.id, t.msgs), ..self }.record_all(
            observed(self.registry, t.id, t.msgs),
        )
    }

    /// The mailbox copies of an actor that are unaccounted for.
    pub open spec fn destroyed(self, o: int) -> int {
        monus(
            monus(monus(self.ledger[o].delivered, self.ledger[o].consumed), self.ledger[o].dropped),
            self.registry.waiting(self.actors[o]),
        )
    }

    /// Reconciling an actor's account after it crashed.
    pub open spec fn settle(self, ord: u64, mids: Seq<u64>) -> World {
        let o = ord as int;
        let n = self.destroyed(o);
        World {
            ledger: self.ledger.update(
                o,
                LedgerView { dropped: self.ledger[o].dropped + n, ..self.ledger[o] },
            ),
            stats: StatsView { dropped: self.stats.dropped + n, ..self.stats },
            mid_lost: Seq::new(
                self.mid_lost.len(),
                |i: int| self.mid_lost[i] || (mids.contains(i as u64) && self.mid_times[i] == 0),
            ),
            trace: self.trace.push(TraceOp::Crash { to: ord, dropped: n as u64 }),
            ..self
        }
    }

    /// Whether the supervisor has a restart left for an actor.
    pub open spec fn grants(self, o: int) -> bool {
        self.supervisor.has_budget(o)
    }

    /// The supervisor answered a crash.
    pub open spec fn answered(self, ord: u64, allowed: bool) -> World {
        let o = ord as int;
        World {
            supervisor: SupervisorView {
                children: self.supervisor.children.update(
                    o,
                    if allowed {
                        crate::supervisor::ChildView {
                            state: ChildState::Restarting,
                            restarts: self.supervisor.children[o].restarts + 1,
                            ..self.supervisor.children[o]
                        }
                    } else {
                        crate::supervisor::ChildView {
                            state: ChildState::Stopped,
                            ..self.supervisor.children[o]
                        }
                    },
                ),
                ..self.supervisor
            },
            stats: StatsView {
                restarted: self.stats.restarted + if allowed {
                    1int
                } else {
                    0
                },
                ..self.stats
            },
            trace: self.trace.push(TraceOp::Restart { to: ord, allowed }),
            ..self
        }
    }

    /// A new incarnation, before its start message is delivered.
    pub open spec fn reborn(self, ord: u64) -> World {
        let o = ord as int;
        let inc = self.ledger[o].incarnation + 1;
        let old_id = self.actors[o];
        let id = sim_id(ord, inc as u64);
        World {
            registry: self.registry.without(old_id).with_new(
                id,
                Some(actor_name_spec(ord, inc as u64)),
            ),
            supervisor: self.supervisor.with_state(o, ChildState::Running),
            actors: self.actors.update(o, id),
            ordinals: self.ordinals.remove(old_id.0).insert(id.0, ord),
            ledger: self.ledger.update(o, LedgerView { incarnation: inc, ..self.ledger[o] }),
            trace: self.trace.push(TraceOp::Spawn { ord }),
            ..self
        }
    }

    /// Respawning an actor under a fresh identity.
    pub open spec fn respawn(self, ord: u64) -> World {
        self.reborn(ord).deliver(World::start_of(ord), 0)
    }

    /// Permanent death of an actor.
    pub open spec fn kill(self, ord: u64) -> World {
        let o = ord as int;
        let id = self.actors[o];
        let n = self.registry.waiting(id);
        World {
            registry: self.registry.without(id),
            ordinals: self.ordinals.remove(id.0),
            ledger: self.ledger.update(
                o,
                LedgerView {
                    dropped: self.ledger[o].dropped + n,
                    alive: false,
                    ..self.ledger[o]
                },
            ),
            stats: StatsView {
                dropped: self.stats.dropped + n,
                escalated: self.stats.escalated + 1,
                ..self.stats
            },
            trace: self.trace.push(TraceOp::Kill { to: ord, dropped: n as u64 }),
            ..self
        }
    }

    /// Restarting a crashed actor, or killing it when its budget is used up.
    pub open spec fn restart(self, ord: u64) -> World {
        if self.grants(ord as int) {
            self.answered(ord, true).respawn(ord)
        } else {
            self.answered(ord, false).kill(ord)
        }
    }

    /// The actor of a task crashed on its first message.
    pub open spec fn struck(self, t: SimTaskView) -> World {
        World {
            registry: crashed(self.registry, t.id),
            stats: StatsView { crashed: self.stats.crashed + 1, ..self.stats },
            ..self
        }
    }

    /// Running a task whose actor crashes on the first message.
    pub open spec fn crash(self, t: SimTaskView) -> World {
        self.struck(t).settle(t.ord, t.mids).restart(t.ord)
    }

    /// Running a task that was dequeued, crashing or not.
    pub open spec fn execute(self, t: SimTaskView, crash: bool) -> World {
        if crash {
            self.crash(t)
        } else {
            self.perform(t)
        }
    }

    /// Whether running a task crashes its actor. Only application messages
    /// can.
    pub open spec fn draws_crash(self, t: SimTaskView) -> bool {
        t.mids.len() > 0 && rolled(self.rng, self.config.faults.crash_prob)
    }

    /// The world after it was decided whether a task crashes.
    pub open spec fn risked(self, t: SimTaskView) -> World {
        World {
            rng: if t.mids.len() > 0 {
                after_roll(self.rng, self.config.faults.crash_prob)
            } else {
                self.rng
            },
            ..self
        }
    }

    /// Processing a chosen task.
    pub open spec fn process(self, t: SimTaskView) -> World {
        if !is_viable(self.registry, t.id) {
            self.dequeued(t).discard(t)
        } else {
            self.dequeued(t).risked(t).execute(t, self.draws_crash(t))
        }
    }

    /// Choosing a task and processing it, when it was settled beforehand
    /// whether an application message crashes its actor.
    pub open spec fn step_as(self, crash: bool) -> World {
        let w = self.picked();
        let t = self.next_task();
        if !is_viable(w.registry, t.id) {
            w.dequeued(t).discard(t)
        } else {
            w.dequeued(t).execute(t, crash && t.mids.len() > 0)
        }
    }

    /// Choosing a task and processing it.
    pub open spec fn step(self) -> World {
        self.picked().process(self.next_task())
    }

    /// Making up to `n` scheduling decisions.
    pub open spec fn step_times(self, n: nat) -> World
        decreases n,
    {
        if n == 0 || self.ready.is_clear() {
            self
        } else {
            self.step().step_times((n - 1) as nat)
        }
    }

    /// Time moves on by one tick.
    pub open spec fn advanced(self) -> World {
        World {
            tick: self.tick + 1,
            clock: saturating_sum(self.clock as int, TICK_MICROS as int),
            ..self
        }
    }

    /// One scheduling round: time moves, the workload is injected, due and
    /// parked deliveries are tried, and tasks are chosen and processed.
    pub open spec fn round(self) -> World {
        self.advanced().inject_workload().deliver_due().retry_blocked().step_times(
            self.config.processing_per_tick as nat,
        )
    }

    /// Whether nothing can ever run or arrive again.
    pub open spec fn quiescent(self) -> bool {
        &&& self.next_mid >= self.budget()
        &&& self.delayed.len() == 0
        &&& self.blocked.len() == 0
        &&& self.ready.is_clear()
        &&& self.ready.queued() == 0
        &&& forall|o: int|
            0 <= o < self.ledger.len() && (#[trigger] self.ledger[o]).alive
                ==> self.registry.waiting(self.actors[o]) == 0
    }

    /// Running up to `n` rounds.
    pub open spec fn run(self, n: nat) -> World
        decreases n,
    {
        if n == 0 || self.quiescent() {
            self
        } else {
            self.round().run((n - 1) as nat)
        }
    }

    /// The rounds that running up to `n` of them takes.
    pub open spec fn rounds(self, n: nat) -> nat
        decreases n,
    {
        if n == 0 || self.quiescent() {
            0
        } else {
            1 + self.round().rounds((n - 1) as nat)
        }
    }
}

} // verus!
