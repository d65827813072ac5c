//! Deterministic simulation of the actor runtime.
//!
//! The whole world (scheduling decisions, faults, time) is driven by a single
//! seeded stream on a single thread: the same seed and configuration give the
//! same trace. Simulation code decides what runs next; the runtime's own
//! registry, mailboxes, pipeline and supervisor decide what running it does.
//!
//! What a run does is stated by [`world::World`], and what holds in every
//! world that a run reaches by [`soundness`].
pub mod calm;
pub mod chronicle;
pub mod clock;
pub mod conduct;
pub mod config;
pub mod crashes;
pub mod drain;
pub mod executor;
pub mod faults;
pub mod genesis;
pub mod headroom;
pub mod laws;
pub mod names;
pub mod parcels;
pub mod rounds;
pub mod scheduler;
pub mod settings;
pub mod soundness;
pub mod stats;
pub mod trace;
pub mod turns;
pub mod upkeep;
pub mod workload;
pub mod world;

pub use clock::{SimClock, SimInstant};
pub use config::{InjectionRate, SimConfig};
pub use executor::{ExecRecord, ExecTag, SimExecutor, SIM_CRASH_MESSAGE};
pub use faults::{FaultConfig, Probability};
pub use scheduler::SchedulingPolicy;
pub use stats::{SimOutcome, SimStats};
pub use trace::{fnv1a, RejectReason, TraceOp};

use crate::bytes::word_to_bytes;
use crate::queue::Task;
use crate::registry::{ActorRegistry, ActorState};
use crate::scheduler as pipeline;
use crate::scheduler::is_viable;
use crate::sim::faults::SimRng;
use crate::sim::parcels::Parcel;
use crate::sim::scheduler::{app_msgs, ReadySet, SimTask, SimTaskView};
use crate::sim::headroom::{can_drive, can_round, can_run_for, has_room_for, has_time};
use crate::sim::names::{actor_name, sim_actor_id, supervisor_name, DISTINCT_INCARNATIONS};
use crate::sim::soundness::{apps, delivered_of, queued_by, sizes, starts};
use crate::sim::world::{
    app_msg, app_msgs_of, batch_priority, later_slot, longest_delay, lose, mid_range, monus, reject_ops, sent_all,
    DeliveryView, LaterView, LedgerView, Plan, World, BATCH_SHARE, DUPLICATE_GAP_TICKS, MAX_BATCH,
    TICK_MICROS, URGENT_SHARE,
};
use crate::sums::{
    lemma_sum_add, lemma_sum_le, lemma_sum_nonneg, lemma_sum_push, lemma_sum_same, sum_of,
};
use crate::supervisor::{ChildSpec, ExitReason, RestartPolicy, Supervisor};
use crate::{ActorId, Message, MessagePayload, MessageView, Priority};
use std::collections::{BTreeMap, VecDeque};
use vstd::prelude::*;

verus! {

broadcast use vstd::laws_cmp::group_laws_cmp;

/// Default step budget for [`Sim::run_to_quiescence`].
pub const DEFAULT_STEP_BUDGET: u64 = 4_000_000;

/// Per-actor account of mailbox copies.
#[derive(Clone, Copy)]
struct ActorLedger {
    /// Mailbox copies accepted (duplicates included).
    delivered: u64,
    /// Messages processed per executor observation.
    consumed: u64,
    /// Lost artifacts (crash drains, restart drops).
    dropped: u64,
    /// Application messages currently sitting in queued tasks.
    queued: u64,
    /// Current incarnation counter.
    incarnation: u64,
    /// Registered (not escalated/killed).
    alive: bool,
}

impl View for ActorLedger {
    type V = LedgerView;

    closed spec fn view(&self) -> LedgerView {
        LedgerView {
            delivered: self.delivered as int,
            consumed: self.consumed as int,
            dropped: self.dropped as int,
            queued: self.queued as int,
            incarnation: self.incarnation as int,
            alive: self.alive,
        }
    }
}

/// The messages in a list.
spec fn msgs_view(msgs: Seq<Message>) -> Seq<MessageView> {
    msgs.map_values(|m: Message| m@)
}

/// A delivery attempt payload (may carry a batch).
struct DeliverPayload {
    ord: u64,
    msgs: Vec<Message>,
    mids: Vec<u64>,
    was_blocked: bool,
}

impl View for DeliverPayload {
    type V = DeliveryView;

    closed spec fn view(&self) -> DeliveryView {
        DeliveryView {
            ord: self.ord,
            msgs: msgs_view(self.msgs@),
            mids: self.mids@,
            was_blocked: self.was_blocked,
        }
    }
}

/// Time-ordered delayed delivery.
struct DeliverLater {
    at: u64,
    seq: u64,
    payload: DeliverPayload,
}

impl View for DeliverLater {
    type V = LaterView;

    closed spec fn view(&self) -> LaterView {
        LaterView { at: self.at as int, seq: self.seq as int, delivery: self.payload@ }
    }
}

/// A deterministic simulation of the actor runtime.
pub struct Sim {
    seed: u64,
    config: SimConfig,
    rng: SimRng,
    clock: SimClock,
    registry: ActorRegistry,
    executor: SimExecutor,
    supervisor: Supervisor,
    /// Current incarnation ID per actor ordinal.
    actors: Vec<ActorId>,
    /// Actor ID bits to ordinal for current incarnations.
    ordinals: BTreeMap<u128, u64>,
    ledger: Vec<ActorLedger>,
    ready: ReadySet,
    /// Ordered by the tick at which they land, and then by age.
    delayed: VecDeque<DeliverLater>,
    blocked: VecDeque<DeliverPayload>,
    next_seq: u64,
    next_mid: u64,
    /// Per-message processed counts (identity audit).
    mid_times: Vec<u32>,
    /// Per-message lost flags (identity audit).
    mid_lost: Vec<bool>,
    tick: u64,
    trace: Vec<TraceOp>,
    stats: SimStats,
}

/// The accounts in a list.
spec fn ledger_view(ledger: Seq<ActorLedger>) -> Seq<LedgerView> {
    ledger.map_values(|l: ActorLedger| l@)
}

/// The postponed deliveries in a list.
spec fn delayed_view(delayed: Seq<DeliverLater>) -> Seq<LaterView> {
    delayed.map_values(|d: DeliverLater| d@)
}

/// The parked deliveries in a list.
spec fn blocked_view(blocked: Seq<DeliverPayload>) -> Seq<DeliveryView> {
    blocked.map_values(|d: DeliverPayload| d@)
}

/// The counts in a list.
spec fn times_view(times: Seq<u32>) -> Seq<int> {
    times.map_values(|n: u32| n as int)
}

impl View for Sim {
    type V = World;

    closed spec fn view(&self) -> World {
        World {
            seed: self.seed,
            config: self.config,
            rng: self.rng@,
            clock: self.clock@,
            registry: self.registry@,
            supervisor: self.supervisor@,
            actors: self.actors@,
            ordinals: self.ordinals@,
            ledger: ledger_view(self.ledger@),
            ready: self.ready@,
            delayed: delayed_view(self.delayed@),
            blocked: blocked_view(self.blocked@),
            next_seq: self.next_seq as int,
            next_mid: self.next_mid as int,
            mid_times: times_view(self.mid_times@),
            mid_lost: self.mid_lost@,
            tick: self.tick as int,
            trace: self.trace@,
            stats: self.stats@,
        }
    }
}

/// Whether the counters can take one more attempt to deliver `d`.
spec fn has_room(w: World, d: DeliveryView) -> bool {
    &&& d.ord < w.actors.len()
    &&& w.actors.len() == w.ledger.len()
    &&& d.msgs.len() > 0
    &&& w.stats.rejected + d.mids.len() <= u64::MAX
    &&& w.stats.blocked < u64::MAX
    &&& w.stats.delivered + d.msgs.len() <= u64::MAX
    &&& w.stats.unblocked < u64::MAX
    &&& w.ledger[d.ord as int].delivered + d.msgs.len() <= u64::MAX
    &&& w.ledger[d.ord as int].queued + d.mids.len() <= u64::MAX
    &&& w.ready.queued() + d.mids.len() <= u64::MAX
}

/// The counters of a sound world can take one more attempt.
proof fn lemma_has_room(w: World, d: DeliveryView, rest: Seq<Parcel>)
    requires
        w.inv(rest.push(d.parcel())),
        w.stats.blocked < u64::MAX,
    ensures
        has_room(w, d),
{
    let p = d.parcel();
    let o = d.ord as int;
    upkeep::lemma_hand_fits(w, rest, p);
    lemma_sum_push(rest, p, apps());
    lemma_sum_push(rest, p, sizes());
    lemma_sum_nonneg(rest, apps());
    lemma_sum_nonneg(rest, sizes());
    parcels::lemma_pending_nonneg(w, apps());
    parcels::lemma_pending_nonneg(w, sizes());
    assert forall|i: int| 0 <= i < w.ledger.len() implies #[trigger] delivered_of()(w.ledger[i])
        >= 0 by {
        assert(w.actor_balanced(i));
    }
    turns::lemma_term_bound(w.ledger, delivered_of(), o);
    assert(w.actor_balanced(o));
    let tasks = w.ready.tasks();
    lemma_sum_le(tasks, queued_by(o), parcels::on_task(apps()));
    lemma_sum_same(tasks, app_msgs(), parcels::on_task(apps()));
}

impl Sim {
    /// The parts keep their own invariants.
    closed spec fn fit(self) -> bool {
        &&& self.registry.wf()
        &&& self.ready.wf()
        &&& self.executor@ == Seq::<ExecRecord>::empty()
        &&& !self.executor.armed()
    }

    /// The simulation is in a world that satisfies the invariants.
    pub closed spec fn wf(self) -> bool {
        &&& self.fit()
        &&& self@.inv(Seq::empty())
    }

    /// The world of a well-formed simulation satisfies the invariants, and
    /// what is in its mailboxes fits.
    pub proof fn lemma_wf(self)
        requires
            self.wf(),
        ensures
            self@.inv(Seq::empty()),
            forall|k: u128| #[trigger]
                self@.registry.entries.contains_key(k)
                    ==> self@.registry.entries[k].mailbox.fits(),
    {
        self.registry.lemma_wf();
    }

    /// The position of an actor in the lists.
    fn place(&self, ord: u64) -> (r: usize)
        requires
            ord < self@.actors.len(),
        ensures
            r == ord,
    {
        let count: usize = self.actors.len();
        assert(ord < count);
        ord as usize
    }

    /// Note that a copy of a message was lost.
    fn mark_lost(&mut self, mid: u64)
        requires
            old(self).fit(),
        ensures
            final(self).fit(),
            final(self)@ == (World {
                mid_lost: lose(old(self)@.mid_lost, seq![mid]),
                ..old(self)@
            }),
    {
        let ghost before = self@;
        if mid < self.mid_lost.len() as u64 {
            self.mid_lost.set(mid as usize, true);
        }
        proof {
            assert(seq![mid][0] == mid);
            assert(self@.mid_lost =~= lose(before.mid_lost, seq![mid]));
        }
    }

    /// Reject messages.
    fn reject_all(&mut self, mids: &Vec<u64>, to: u64, reason: RejectReason)
        requires
            old(self).fit(),
            old(self)@.stats.rejected + mids@.len() <= u64::MAX,
        ensures
            final(self).fit(),
            final(self)@ == old(self)@.reject(mids@, to, reason),
    {
        let ghost w = self@;
        let mut i: usize = 0;
        proof {
            assert(mids@.take(0) =~= Seq::empty());
            assert(w.mid_lost =~= lose(w.mid_lost, Seq::empty()));
            assert(w.trace + reject_ops(Seq::empty(), to, reason) =~= w.trace);
            assert(w =~= w.reject(mids@.take(0), to, reason));
        }
        while i < mids.len()
            invariant
                i <= mids@.len(),
                self.fit(),
                self@ == w.reject(mids@.take(i as int), to, reason),
                w.stats.rejected + mids@.len() <= u64::MAX,
            decreases mids@.len() - i,
        {
            let mid: u64 = mids[i];
            self.mark_lost(mid);
            self.stats.rejected = self.stats.rejected + 1;
            self.trace.push(TraceOp::Reject { mid, to, reason });
            proof {
                let a = mids@.take(i as int);
                let b = mids@.take(i + 1);
                assert(b =~= a.push(mid));
                assert(reject_ops(b, to, reason) =~= reject_ops(a, to, reason).push(
                    TraceOp::Reject { mid, to, reason },
                ));
                assert forall|k: int| 0 <= k < w.mid_lost.len() implies b.contains(k as u64) == (
                a.contains(k as u64) || #[trigger] seq![mid].contains(k as u64)) by {
                    lemma_push_contains(a, mid, k as u64);
                    assert(seq![mid][0] == mid);
                }
                assert(self@.mid_lost =~= lose(w.mid_lost, b));
                assert(self@.trace =~= w.trace + reject_ops(b, to, reason));
                assert(self@ =~= w.reject(b, to, reason));
            }
            i = i + 1;
        }
        assert(mids@.take(i as int) =~= mids@);
    }

    /// The most urgent priority in a batch.
    fn priority_of(msgs: &Vec<Message>) -> (r: Priority)
        requires
            msgs@.len() > 0,
        ensures
            r == batch_priority(msgs_view(msgs@)),
    {
        let ghost all = msgs_view(msgs@);
        let mut best: Priority = msgs[0].priority;
        let mut i: usize = 1;
        proof {
            assert(all.take(1)[0] == msgs@[0]@);
        }
        while i < msgs.len()
            invariant
                1 <= i <= msgs@.len(),
                all == msgs_view(msgs@),
                all.len() == msgs@.len(),
                best == batch_priority(all.take(i as int)),
            decreases msgs@.len() - i,
        {
            proof {
                assert(all.take(i + 1).drop_last() =~= all.take(i as int));
                assert(all.take(i + 1).last() == msgs@[i as int]@);
            }
            if msgs[i].priority.rank() >= best.rank() {
                best = msgs[i].priority;
            }
            i = i + 1;
        }
        assert(all.take(i as int) =~= all);
        best
    }

    /// Put the messages of a batch into an actor's mailbox.
    fn fill_mailbox(&mut self, id: &ActorId, msgs: &Vec<Message>)
        requires
            old(self).fit(),
            old(self)@.registry.entries.contains_key(id.0),
            old(self)@.registry.waiting(*id) + msgs@.len() <= old(
                self,
            )@.registry.entries[id.0].mailbox.config.capacity,
        ensures
            final(self).fit(),
            final(self)@ == (World {
                registry: old(self)@.registry.with_mailbox(
                    *id,
                    sent_all(old(self)@.registry.entries[id.0].mailbox, msgs_view(msgs@)),
                ),
                ..old(self)@
            }),
    {
        let ghost w = self@;
        let ghost mailbox = w.registry.entries[id.0].mailbox;
        let ghost all = msgs_view(msgs@);
        let mut i: usize = 0;
        proof {
            assert(all.take(0) =~= Seq::empty());
            assert(mailbox.queue + Seq::<MessageView>::empty() =~= mailbox.queue);
            assert(sent_all(mailbox, all.take(0)) =~= mailbox);
            assert(w.registry.with_mailbox(*id, mailbox) =~= w.registry);
        }
        while i < msgs.len()
            invariant
                i <= msgs@.len(),
                all == msgs_view(msgs@),
                all.len() == msgs@.len(),
                self.fit(),
                w.registry.entries.contains_key(id.0),
                mailbox == w.registry.entries[id.0].mailbox,
                mailbox.queue.len() + msgs@.len() <= mailbox.config.capacity,
                self@ == (World {
                    registry: w.registry.with_mailbox(*id, sent_all(mailbox, all.take(i as int))),
                    ..w
                }),
            decreases msgs@.len() - i,
        {
            let _ = self.registry.try_send(id, msgs[i].clone());
            proof {
                let a = sent_all(mailbox, all.take(i as int));
                let b = sent_all(mailbox, all.take(i + 1));
                assert(all[i as int] == msgs@[i as int]@);
                assert(b.queue =~= a.queue.push(all[i as int]));
                assert(b =~= a.sent(all[i as int]));
                assert(self@.registry =~= w.registry.with_mailbox(*id, b));
                assert(self@ =~= World { registry: w.registry.with_mailbox(*id, b), ..w });
            }
            i = i + 1;
        }
        assert(all.take(i as int) =~= all);
    }

    /// Accept a delivery that fits its target's mailbox.
    fn accept_delivery(&mut self, payload: DeliverPayload)
        requires
            old(self).fit(),
            has_room(old(self)@, payload@),
            old(self)@.accepts(payload@),
        ensures
            final(self).fit(),
            final(self)@ == old(self)@.accept(payload@),
    {
        let ghost w = self@;
        let ghost d = payload@;
        let ord: u64 = payload.ord;
        let place: usize = self.place(ord);
        let id: ActorId = self.actors[place];
        self.fill_mailbox(&id, &payload.msgs);
        let ghost u = self@;
        let priority = Self::priority_of(&payload.msgs);
        let n: u64 = payload.msgs.len() as u64;
        let k: u64 = payload.mids.len() as u64;
        let entry: ActorLedger = self.ledger[place];
        assert(w.ledger[ord as int] == entry@);
        self.ledger.set(
            place,
            ActorLedger { delivered: entry.delivered + n, queued: entry.queued + k, ..entry },
        );
        self.stats.delivered = self.stats.delivered + n;
        if payload.was_blocked {
            self.stats.unblocked = self.stats.unblocked + 1;
        }
        if k > 0 {
            self.trace.push(TraceOp::Deliver { first: payload.mids[0], len: k, to: ord });
        }
        let ghost all = payload.msgs@;
        let mut rest: Vec<Message> = payload.msgs;
        let first: Message = rest.remove(0);
        let sim_task = SimTask {
            ord,
            task: Task { actor_id: id, message: first, priority, additional_messages: rest },
            mids: payload.mids,
        };
        proof {
            assert(sim_task@.msgs =~= msgs_view(all));
            assert(sim_task@ =~= w.task_for(d));
        }
        self.ready.push(sim_task);
        proof {
            assert(self@.ledger =~= w.accept(d).ledger);
            assert(self@ =~= w.accept(d));
        }
    }

    /// One delivery attempt against the live world.
    ///
    /// A dead target rejects; a full mailbox parks the delivery for a retry;
    /// otherwise the batch goes into the mailbox and the ready set. Batches
    /// are atomic: fully delivered or parked.
    fn attempt_delivery(&mut self, payload: DeliverPayload)
        requires
            old(self).fit(),
            has_room(old(self)@, payload@),
        ensures
            final(self).fit(),
            final(self)@ == old(self)@.attempt(payload@),
    {
        let ghost w = self@;
        let ghost d = payload@;
        let ord: u64 = payload.ord;
        let place: usize = self.place(ord);
        let id: ActorId = self.actors[place];
        let viable: bool = match self.registry.get_state(&id) {
            Some(state) => state == ActorState::Creating || state == ActorState::Running,
            None => false,
        };
        if !viable {
            // At-most-once across death: pending mail to a dead actor is lost.
            self.reject_all(&payload.mids, ord, RejectReason::DeadTarget);
            return ;
        }
        let room: usize = match self.registry.get_mailbox(&id) {
            Some(mailbox) => mailbox.remaining_capacity(),
            None => 0,
        };
        if room < payload.msgs.len() {
            self.stats.blocked = self.stats.blocked + 1;
            if payload.mids.len() > 0 && !payload.was_blocked {
                // Traced once: retries park again silently.
                let op = TraceOp::Blocked {
                    first: payload.mids[0],
                    len: payload.mids.len() as u64,
                    to: ord,
                };
                self.trace.push(op);
            }
            let parked = DeliverPayload { was_blocked: true, ..payload };
            self.blocked.push_back(parked);
            proof {
                assert(self@.blocked =~= w.blocked.push(parked@));
                assert(self@ =~= w.park(d));
            }
            return ;
        }
        self.accept_delivery(payload);
    }

    /// Route a delivery into mailbox + ready set, postponing by `delay` if
    /// nonzero.
    fn deliver_or_block(&mut self, payload: DeliverPayload, delay: u64)
        requires
            old(self).fit(),
            delay == 0 ==> has_room(old(self)@, payload@),
            delay > 0 ==> old(self)@.tick + delay <= u64::MAX && old(self)@.next_seq < u64::MAX,
        ensures
            final(self).fit(),
            final(self)@ == old(self)@.deliver(payload@, delay as int),
    {
        if delay == 0 {
            self.attempt_delivery(payload);
            return ;
        }
        let ghost w = self@;
        let ghost d = payload@;
        self.next_seq = self.next_seq + 1;
        let at: u64 = self.tick + delay;
        let later = DeliverLater { at, seq: self.next_seq, payload };
        let mut slot: usize = self.delayed.len();
        proof {
            assert(w.delayed.take(slot as int) =~= w.delayed);
        }
        while slot > 0 && self.delayed[slot - 1].at > at
            invariant
                slot <= self.delayed@.len(),
                w.delayed == delayed_view(self.delayed@),
                later_slot(w.delayed, at as int) == later_slot(
                    w.delayed.take(slot as int),
                    at as int,
                ),
            decreases slot,
        {
            proof {
                let head = w.delayed.take(slot as int);
                assert(head.last() == self.delayed@[slot - 1]@);
                assert(head.drop_last() =~= w.delayed.take(slot - 1));
            }
            slot = slot - 1;
        }
        proof {
            let head = w.delayed.take(slot as int);
            if slot > 0 {
                assert(head.last() == self.delayed@[slot - 1]@);
            }
            assert(later_slot(w.delayed, at as int) == slot);
        }
        self.delayed.insert(slot, later);
        proof {
            assert(self@.delayed =~= w.delayed.insert(slot as int, later@));
            assert(self@ =~= w.postpone(d, delay as int));
        }
    }
}

impl Sim {
    /// The delivery of the message that starts an actor.
    fn start_payload(ord: u64) -> (r: DeliverPayload)
        ensures
            r@ == World::start_of(ord),
    {
        let start = Message {
            sender: None,
            payload: MessagePayload::Start,
            priority: Priority::Normal,
        };
        let mut msgs: Vec<Message> = Vec::new();
        msgs.push(start);
        let r = DeliverPayload { ord, msgs, mids: Vec::new(), was_blocked: false };
        assert(r@.msgs =~= World::start_of(ord).msgs);
        assert(r@ =~= World::start_of(ord));
        r
    }

    /// Spawn actor `ord`: registry entry + supervisor child + `Start` mail.
    fn spawn_actor(&mut self, ord: u64)
        requires
            old(self).wf(),
            old(self)@.stats.crashed == 0,
            old(self)@.stats.blocked < u64::MAX,
            ord == old(self)@.actors.len(),
            16 * (ord + 1) <= isize::MAX,
        ensures
            final(self).wf(),
            final(self)@ == old(self)@.spawn(ord),
    {
        let ghost w = self@;
        proof {
            genesis::lemma_newcomer(w, ord);
            genesis::lemma_enrolled_inv(w, ord);
        }
        let id = sim_actor_id(ord, 0);
        let _ = self.registry.register_named(id, Some(actor_name(ord, 0)));
        let _ = self.supervisor.start_child(
            ChildSpec::new(supervisor_name(ord)).restart_policy(RestartPolicy::Permanent),
        );
        self.actors.push(id);
        self.ordinals.insert(id.0, ord);
        let entry = ActorLedger {
            delivered: 0,
            consumed: 0,
            dropped: 0,
            queued: 0,
            incarnation: 0,
            alive: true,
        };
        self.ledger.push(entry);
        self.trace.push(TraceOp::Spawn { ord });
        proof {
            assert(self@.ledger =~= w.ledger.push(entry@));
            assert(self@ =~= w.enrolled(ord));
            lemma_has_room(self@, World::start_of(ord), Seq::empty());
            upkeep::lemma_attempt_inv(self@, World::start_of(ord), Seq::empty());
        }
        // System messages are reliable: no fault rolls.
        self.deliver_or_block(Self::start_payload(ord), 0);
    }

    /// Build a sim with the default configuration and the given seed.
    pub fn new(seed: u64) -> (r: Sim)
        ensures
            r.wf(),
            r@ == World::created(seed, SimConfig::standard()),
            r@.config == SimConfig::standard(),
            r@.seed == seed,
            r@.tick == 0,
            r@.next_mid == 0,
            r@.stats.blocked == 0,
            r@.stats.crashed == 0,
            r@.stats.duplicates == 0,
            r@.actors.len() == SimConfig::standard().actors,
            r@.budget() == SimConfig::standard().messages,
            r@.supervisor.max_restarts == SimConfig::standard().max_restarts,
    {
        Self::with_config(seed, SimConfig::default())
    }

    /// Build a sim with an explicit configuration and seed.
    pub fn with_config(seed: u64, config: SimConfig) -> (r: Sim)
        requires
            genesis::config_fits(config),
        ensures
            r.wf(),
            r@ == World::created(seed, config),
            r@.config == config,
            r@.seed == seed,
            r@.tick == 0,
            r@.next_mid == 0,
            r@.stats.blocked == 0,
            r@.stats.crashed == 0,
            r@.stats.duplicates == 0,
            r@.actors.len() == config.actors,
            r@.budget() == config.messages,
            r@.supervisor.max_restarts == config.max_restarts,
    {
        let n: usize = config.messages as usize;
        let mut sim = Sim {
            seed,
            config,
            rng: SimRng::new(seed),
            clock: SimClock::new(),
            registry: ActorRegistry::with_mailbox_config(config.mailbox),
            executor: SimExecutor::new(),
            supervisor: Supervisor::new(config.max_restarts),
            actors: Vec::new(),
            ordinals: BTreeMap::new(),
            ledger: Vec::new(),
            ready: ReadySet::new(),
            delayed: VecDeque::new(),
            blocked: VecDeque::new(),
            next_seq: 0,
            next_mid: 0,
            mid_times: vec![0u32; n],
            mid_lost: vec![false; n],
            tick: 0,
            trace: Vec::new(),
            stats: SimStats::default(),
        };
        let ghost void = World::void(seed, config);
        proof {
            assert(sim@.mid_times =~= void.mid_times);
            assert(sim@.mid_lost =~= void.mid_lost);
            assert(sim@.ledger =~= Seq::empty());
            assert(sim@.delayed =~= Seq::empty());
            assert(sim@.blocked =~= Seq::empty());
            assert(sim@ =~= void);
            genesis::lemma_void_inv(seed, config);
        }
        let mut ord: u64 = 0;
        while ord < config.actors
            invariant
                ord <= config.actors,
                genesis::config_fits(config),
                sim.wf(),
                void == World::void(seed, config),
                sim@ == void.spawn_first(ord as nat),
            decreases config.actors - ord,
        {
            proof {
                genesis::lemma_spawn_first_inv(seed, config, ord as nat);
            }
            sim.spawn_actor(ord);
            ord = ord + 1;
        }
        proof {
            genesis::lemma_spawn_first_inv(seed, config, config.actors as nat);
        }
        sim
    }

    /// The delivery of `len` application messages.
    fn app_payload(to: u64, first: u64, len: u64, priority: Priority) -> (r: DeliverPayload)
        requires
            first + len <= u64::MAX,
        ensures
            r@ == (DeliveryView {
                ord: to,
                msgs: app_msgs_of(mid_range(first as int, len as int), priority),
                mids: mid_range(first as int, len as int),
                was_blocked: false,
            }),
    {
        let mut msgs: Vec<Message> = Vec::new();
        let mut mids: Vec<u64> = Vec::new();
        let mut i: u64 = 0;
        while i < len
            invariant
                i <= len,
                first + len <= u64::MAX,
                mids@ == mid_range(first as int, i as int),
                msgs_view(msgs@) == app_msgs_of(mids@, priority),
            decreases len - i,
        {
            let mid: u64 = first + i;
            let ghost before = mids@;
            let ghost held = msgs@;
            let msg = Message {
                sender: None,
                payload: MessagePayload::Custom(word_to_bytes(mid)),
                priority,
            };
            msgs.push(msg);
            mids.push(mid);
            proof {
                assert(mids@ =~= mid_range(first as int, i + 1));
                assert(msgs_view(msgs@) =~= msgs_view(held).push(app_msg(mid, priority)));
                assert(app_msgs_of(mids@, priority) =~= app_msgs_of(before, priority).push(
                    app_msg(mid, priority),
                ));
            }
            i = i + 1;
        }
        let r = DeliverPayload { ord: to, msgs, mids, was_blocked: false };
        assert(r@.mids =~= mid_range(first as int, len as int));
        r
    }

    /// Draw what the next injected event is.
    ///
    /// Fixed draw order: target, batch, priority, rejection, delay, duplicate.
    fn plan_event(&mut self) -> (r: Plan)
        requires
            old(self).wf(),
            old(self)@.next_mid < old(self)@.budget(),
            old(self)@.actors.len() > 0,
        ensures
            final(self).wf(),
            final(self)@ == old(self)@.planned(),
            r == old(self)@.plan(),
    {
        let ghost w = self@;
        proof {
            workload::lemma_plan_fits(w);
        }
        let count: usize = self.actors.len();
        let to: u64 = self.rng.below(count as u64);
        let budget: u64 = self.mid_times.len() as u64;
        let remaining: u64 = budget - self.next_mid;
        let mut len: u64 = 1;
        if remaining > 1 && self.rng.roll(Probability::Below(BATCH_SHARE)) {
            let max: u64 = if remaining < MAX_BATCH {
                remaining
            } else {
                MAX_BATCH
            };
            len = self.rng.range(2, max);
        }
        let urgent: bool = self.rng.roll(Probability::Below(URGENT_SHARE));
        let priority: Priority = if urgent {
            Priority::High
        } else {
            Priority::Normal
        };
        let rejected: bool = self.rng.roll(self.config.faults.send_reject_prob);
        let mut delay: u64 = 0;
        let mut duplicate: bool = false;
        if !rejected {
            if self.rng.roll(self.config.faults.delay_prob) {
                delay =
                self.rng.range(
                    self.config.faults.delay_ticks_min,
                    self.config.faults.delay_ticks_max,
                );
            }
            duplicate = self.rng.roll(self.config.faults.duplicate_prob);
        }
        proof {
            assert(self@ =~= w.planned());
            upkeep::lemma_rng_inv(w, self@, Seq::empty());
        }
        Plan { to, len, priority, rejected, delay, duplicate }
    }

    /// Carry out an injected event: trace it, then reject, deliver or
    /// postpone its messages, twice when it is duplicated.
    pub fn carry_out(&mut self, plan: Plan)
        requires
            old(self).wf(),
            workload::plan_fits(old(self)@, plan),
            old(self)@.stats.blocked < u64::MAX,
            old(self)@.tick + plan.last_delay() <= u64::MAX,
        ensures
            final(self).wf(),
            final(self)@ == old(self)@.inject(plan),
    {
        let ghost w = self@;
        let ghost d = w.event_delivery(plan);
        let ghost none = Seq::<Parcel>::empty();
        proof {
            workload::lemma_announced_inv(w, plan);
            workload::lemma_inject_inv(w, plan);
        }
        let first: u64 = self.next_mid;
        self.next_mid = self.next_mid + plan.len;
        self.stats.injected = self.stats.injected + plan.len;
        if plan.len > 1 {
            self.trace.push(TraceOp::BatchSend { first, len: plan.len, to: plan.to });
        } else {
            self.trace.push(TraceOp::Send { mid: first, to: plan.to });
        }
        let payload = Self::app_payload(plan.to, first, plan.len, plan.priority);
        proof {
            assert(self@ =~= w.announced(plan));
            assert(payload@ == d);
        }
        if plan.rejected {
            proof {
                lemma_has_room(self@, d, none);
            }
            self.reject_all(&payload.mids, plan.to, RejectReason::Fault);
            return ;
        }
        proof {
            if !plan.duplicate {
                if plan.delay == 0 {
                    lemma_has_room(self@, d, none);
                }
            } else {
                let u = workload::announced_with(w, plan);
                if plan.delay == 0 {
                    lemma_has_room(u, d, none.push(d.parcel()));
                }
            }
        }
        self.deliver_or_block(payload, plan.delay);
        if plan.duplicate {
            proof {
                let u = workload::announced_with(w, plan);
                workload::lemma_deliver_inv(u, d, plan.delay as int, none.push(d.parcel()));
                assert(u.deliver(d, plan.delay as int) =~= workload::bumped(self@));
            }
            self.stats.duplicates = self.stats.duplicates + 1;
            let copy = Self::app_payload(plan.to, first, plan.len, plan.priority);
            self.deliver_or_block(copy, plan.delay + DUPLICATE_GAP_TICKS);
        }
    }

    /// Inject a single send event (possibly a small batch).
    fn inject_one(&mut self)
        requires
            old(self).wf(),
            has_time(old(self)@, 0),
            old(self)@.next_mid < old(self)@.budget(),
            old(self)@.actors.len() > 0,
            old(self)@.stats.blocked < u64::MAX,
        ensures
            final(self).wf(),
            final(self)@ == old(self)@.inject_one(),
    {
        proof {
            workload::lemma_plan_fits(self@);
        }
        let plan = self.plan_event();
        self.carry_out(plan);
    }

    /// Inject this tick's workload (fixed draw order). The message budget is
    /// the identity-ledger size fixed at construction.
    fn inject_workload(&mut self)
        requires
            old(self).wf(),
            can_drive(old(self)@.config),
            has_time(old(self)@, 0),
            old(self)@.actors.len() > 0 || old(self)@.next_mid >= old(self)@.budget(),
            old(self)@.stats.blocked + old(self)@.budget() - old(self)@.next_mid <= u64::MAX,
        ensures
            final(self).wf(),
            final(self)@ == old(self)@.inject_workload(),
    {
        let ghost w = self@;
        let budget: u64 = self.mid_times.len() as u64;
        if self.next_mid >= budget {
            return ;
        }
        let extra: bool = self.rng.roll(self.config.injection_rate.fraction);
        let mut left: u64 = self.config.injection_rate.whole;
        if extra {
            left = left + 1;
        }
        if left < 1 {
            // Always progress toward the budget.
            left = 1;
        }
        let ghost v = World {
            rng: faults::after_roll(w.rng, w.config.injection_rate.fraction),
            ..w
        };
        proof {
            assert(self@ =~= v);
            upkeep::lemma_rng_inv(w, v, Seq::empty());
            assert(left == w.attempts());
        }
        while left > 0 && self.next_mid < budget
            invariant
                self.wf(),
                can_drive(self@.config),
                has_time(self@, 0),
                self@.actors.len() > 0,
                budget == self@.budget(),
                self@.stats.blocked + self@.budget() - self@.next_mid <= u64::MAX,
                self@.inject_times(left as nat) == v.inject_times(w.attempts()),
            decreases left,
        {
            proof {
                workload::lemma_inject_one_inv(self@);
            }
            self.inject_one();
            left = left - 1;
        }
    }

    /// Deliver everything due this tick.
    fn deliver_due(&mut self)
        requires
            old(self).wf(),
            old(self)@.stats.blocked + old(self)@.delayed.len() <= u64::MAX,
        ensures
            final(self).wf(),
            final(self)@ == old(self)@.deliver_due(),
    {
        let ghost w = self@;
        while self.delayed.len() > 0 && self.delayed[0].at <= self.tick
            invariant
                self.wf(),
                self@.stats.blocked + self@.delayed.len() <= u64::MAX,
                self@.deliver_due() == w.deliver_due(),
            decreases self@.delayed.len(),
        {
            let ghost u = self@;
            assert(u.delayed[0] == self.delayed@[0]@);
            match self.delayed.pop_front() {
                Some(later) => {
                    proof {
                        upkeep::lemma_landed_inv(u);
                        upkeep::lemma_attempt_inv(u.landed(), u.delayed[0].delivery, Seq::empty());
                        lemma_counts_small(u, Seq::empty());
                    }
                    self.stats.delayed = self.stats.delayed + 1;
                    proof {
                        assert(self@.delayed =~= u.delayed.drop_first());
                        assert(self@ =~= u.landed());
                        lemma_has_room(u.landed(), later@.delivery, Seq::empty());
                    }
                    self.attempt_delivery(later.payload);
                },
                None => {},
            }
        }
        proof {
            if self@.delayed.len() > 0 {
                assert(self@.delayed[0] == self.delayed@[0]@);
            }
        }
    }

    /// Retry parked deliveries: rotation prevents starvation (the popped
    /// entry is either delivered or pushed to the back).
    fn retry_blocked(&mut self)
        requires
            old(self).wf(),
            old(self)@.stats.blocked + old(self)@.blocked.len() <= u64::MAX,
        ensures
            final(self).wf(),
            final(self)@ == old(self)@.retry_blocked(),
    {
        let ghost w = self@;
        let waiting: u64 = self.blocked.len() as u64;
        let mut left: u64 = self.config.blocked_retries_per_tick;
        if waiting < left {
            left = waiting;
        }
        assert(left == w.retries());
        while left > 0
            invariant
                self.wf(),
                left <= self@.blocked.len(),
                self@.stats.blocked + left <= u64::MAX,
                self@.retry_times(left as nat) == w.retry_blocked(),
            decreases left,
        {
            let ghost u = self@;
            assert(u.blocked[0] == self.blocked@[0]@);
            left = left - 1;
            match self.blocked.pop_front() {
                Some(payload) => {
                    proof {
                        upkeep::lemma_unparked_inv(u);
                        upkeep::lemma_attempt_inv(u.unparked(), u.blocked[0], Seq::empty());
                        assert(self@.blocked =~= u.blocked.drop_first());
                        assert(self@ =~= u.unparked());
                        lemma_has_room(u.unparked(), payload@, Seq::empty());
                    }
                    self.attempt_delivery(payload);
                },
                None => {},
            }
        }
    }
}

/// Whether records are of messages that the actor with ordinal `o` executed.
spec fn are_records_of(w: World, records: Seq<ExecRecord>, o: int) -> bool {
    forall|i: int|
        0 <= i < records.len() ==> {
            let r = #[trigger] records[i];
            &&& w.ordinals.contains_key(r.actor.0)
            &&& w.ordinals[r.actor.0] == o
            &&& r.tag matches ExecTag::Custom(mid) ==> mid < w.budget()
        }
}

/// How far accounting for executions can move the counters.
proof fn lemma_record_bounds(w: World, records: Seq<ExecRecord>, o: int)
    requires
        are_records_of(w, records, o),
        0 <= o < w.ledger.len(),
    ensures
        ({
            let v = w.record_all(records);
            &&& v.ordinals == w.ordinals
            &&& v.actors == w.actors
            &&& v.ledger.len() == w.ledger.len()
            &&& v.ledger[o].consumed == w.ledger[o].consumed + records.len()
            &&& v.stats.processed <= w.stats.processed + records.len()
            &&& v.stats.system_processed <= w.stats.system_processed + records.len()
            &&& v.mid_times.len() == w.mid_times.len()
            &&& forall|i: int|
                0 <= i < w.mid_times.len() ==> #[trigger] v.mid_times[i] <= w.mid_times[i]
                    + records.len()
        }),
    decreases records.len(),
{
    if records.len() > 0 {
        let front = records.drop_last();
        assert forall|i: int| 0 <= i < front.len() implies ({
            let r = #[trigger] front[i];
            &&& w.ordinals.contains_key(r.actor.0)
            &&& w.ordinals[r.actor.0] == o
            &&& r.tag matches ExecTag::Custom(mid) ==> mid < w.budget()
        }) by {
            assert(front[i] == records[i]);
        }
        lemma_record_bounds(w, front, o);
        assert(records[records.len() - 1] == records.last());
        let u = w.record_all(front);
        let v = w.record_all(records);
        assert forall|i: int| 0 <= i < w.mid_times.len() implies #[trigger] v.mid_times[i]
            <= w.mid_times[i] + records.len() by {
            assert(u.mid_times[i] <= w.mid_times[i] + front.len());
        }
    }
}

impl Sim {
    /// Account for executions that the pipeline performed.
    fn account(&mut self, records: &Vec<ExecRecord>, Ghost(o): Ghost<int>)
        requires
            old(self).fit(),
            are_records_of(old(self)@, records@, o),
            0 <= o < old(self)@.ledger.len(),
            old(self)@.ledger.len() == old(self)@.actors.len(),
            old(self)@.ledger[o].consumed + records@.len() <= u64::MAX,
            old(self)@.stats.processed + records@.len() <= u64::MAX,
            old(self)@.stats.system_processed + records@.len() <= u64::MAX,
            forall|i: int|
                0 <= i < old(self)@.mid_times.len() ==> #[trigger] old(self)@.mid_times[i]
                    + records@.len() <= u32::MAX,
        ensures
            final(self).fit(),
            final(self)@ == old(self)@.record_all(records@),
    {
        let ghost w = self@;
        let mut i: usize = 0;
        proof {
            assert(records@.take(0) =~= Seq::empty());
        }
        while i < records.len()
            invariant
                i <= records@.len(),
                self.fit(),
                self@ == w.record_all(records@.take(i as int)),
                are_records_of(w, records@, o),
                0 <= o < w.ledger.len(),
                w.ledger.len() == w.actors.len(),
                w.ledger[o].consumed + records@.len() <= u64::MAX,
                w.stats.processed + records@.len() <= u64::MAX,
                w.stats.system_processed + records@.len() <= u64::MAX,
                forall|k: int|
                    0 <= k < w.mid_times.len() ==> #[trigger] w.mid_times[k] + records@.len()
                        <= u32::MAX,
            decreases records@.len() - i,
        {
            let ghost u = self@;
            let record: ExecRecord = records[i];
            proof {
                let seen = records@.take(i as int);
                assert(are_records_of(w, seen, o)) by {
                    assert forall|k: int| 0 <= k < seen.len() implies ({
                        let r = #[trigger] seen[k];
                        &&& w.ordinals.contains_key(r.actor.0)
                        &&& w.ordinals[r.actor.0] == o
                        &&& r.tag matches ExecTag::Custom(mid) ==> mid < w.budget()
                    }) by {
                        assert(seen[k] == records@[k]);
                    }
                }
                lemma_record_bounds(w, seen, o);
                assert(records@[i as int] == record);
                assert(records@.take(i + 1).drop_last() =~= seen);
                assert(records@.take(i + 1).last() == record);
            }
            let to: u64 = match self.ordinals.get(&record.actor.0) {
                Some(ord) => *ord,
                None => 0,
            };
            let place: usize = self.place(to);
            let entry: ActorLedger = self.ledger[place];
            assert(u.ledger[o] == entry@);
            self.ledger.set(place, ActorLedger { consumed: entry.consumed + 1, ..entry });
            match record.tag {
                ExecTag::Custom(mid) => {
                    let at: usize = self.index_of(mid);
                    assert(u.mid_times[mid as int] == self.mid_times@[mid as int]);
                    assert(u.mid_times[mid as int] <= w.mid_times[mid as int] + i);
                    let times: u32 = self.mid_times[at];
                    self.mid_times.set(at, times.saturating_add(1));
                    self.stats.processed = self.stats.processed + 1;
                    self.trace.push(TraceOp::Process { mid, to });
                    assert(self@.mid_times =~= u.record(record).mid_times);
                },
                ExecTag::System => {
                    self.stats.system_processed = self.stats.system_processed + 1;
                    self.trace.push(TraceOp::ProcessSystem { to });
                },
            }
            proof {
                assert(self@.ledger =~= u.record(record).ledger);
                assert(self@ =~= u.record(record));
            }
            i = i + 1;
        }
        assert(records@.take(i as int) =~= records@);
    }

    /// The position of a message in the identity ledger.
    fn index_of(&self, mid: u64) -> (r: usize)
        requires
            mid < self@.budget(),
        ensures
            r == mid,
    {
        let count: usize = self.mid_times.len();
        assert(mid < count);
        mid as usize
    }

    /// Reconcile the ledger after a crash: the runtime marked the actor
    /// `Failed` and drained its mailbox. Destroyed copies are all those
    /// delivered and neither consumed nor dropped.
    fn settle_crash(&mut self, ord: u64, mids: &Vec<u64>)
        requires
            old(self).fit(),
            ord < old(self)@.actors.len(),
            old(self)@.actors.len() == old(self)@.ledger.len(),
            old(self)@.mid_lost.len() == old(self)@.budget(),
            old(self)@.budget() <= u64::MAX,
            forall|i: int| 0 <= i < mids@.len() ==> #[trigger] mids@[i] < old(self)@.budget(),
            old(self)@.stats.dropped + old(self)@.destroyed(ord as int) <= u64::MAX,
        ensures
            final(self).fit(),
            final(self)@ == old(self)@.settle(ord, mids@),
    {
        let ghost w = self@;
        let place: usize = self.place(ord);
        let id: ActorId = self.actors[place];
        let held: u64 = match self.registry.get_mailbox(&id) {
            Some(mailbox) => mailbox.len() as u64,
            None => 0,
        };
        let entry: ActorLedger = self.ledger[place];
        assert(w.ledger[ord as int] == entry@);
        let residual: u64 = entry.delivered.saturating_sub(entry.consumed).saturating_sub(
            entry.dropped,
        );
        let destroyed: u64 = residual.saturating_sub(held);
        assert(destroyed == w.destroyed(ord as int));
        self.ledger.set(place, ActorLedger { dropped: entry.dropped + destroyed, ..entry });
        self.stats.dropped = self.stats.dropped + destroyed;
        let ghost u = self@;
        assert(u.ledger =~= w.settle(ord, mids@).ledger);
        // Members of the crashed task that never executed.
        let mut i: usize = 0;
        while i < mids.len()
            invariant
                i <= mids@.len(),
                self.fit(),
                w.mid_lost.len() == w.budget(),
                w.mid_lost.len() <= u64::MAX,
                u.mid_times == w.mid_times,
                u.mid_lost == w.mid_lost,
                self@ == (World { mid_lost: self@.mid_lost, ..u }),
                self@.mid_lost.len() == w.mid_lost.len(),
                forall|k: int|
                    0 <= k < w.mid_lost.len() ==> #[trigger] self@.mid_lost[k] == (w.mid_lost[k] || (
                    mids@.take(i as int).contains(k as u64) && w.mid_times[k] == 0)),
                forall|k: int| 0 <= k < mids@.len() ==> #[trigger] mids@[k] < w.budget(),
            decreases mids@.len() - i,
        {
            let mid: u64 = mids[i];
            let ghost before = self@.mid_lost;
            assert(mids@[i as int] < w.budget());
            let at: usize = self.index_of(mid);
            if self.mid_times[at] == 0 {
                self.mark_lost(mid);
            }
            proof {
                assert(w.mid_times[mid as int] == self.mid_times@[mid as int]);
                assert forall|k: int| 0 <= k < w.mid_lost.len() implies #[trigger] self@.mid_lost[k]
                    == (w.mid_lost[k] || (mids@.take(i + 1).contains(k as u64) && w.mid_times[k]
                    == 0)) by {
                    assert(mids@.take(i + 1) =~= mids@.take(i as int).push(mid));
                    lemma_push_contains(mids@.take(i as int), mid, k as u64);
                    assert(seq![mid][0] == mid);
                    assert(before[k] == (w.mid_lost[k] || (mids@.take(i as int).contains(k as u64)
                        && w.mid_times[k] == 0)));
                }
            }
            i = i + 1;
        }
        self.trace.push(TraceOp::Crash { to: ord, dropped: destroyed });
        proof {
            assert(mids@.take(i as int) =~= mids@);
            assert(self@.mid_lost =~= w.settle(ord, mids@).mid_lost);
            assert(self@ =~= w.settle(ord, mids@));
        }
    }

    /// Respawn a restarted actor under a fresh deterministic identity.
    fn respawn(&mut self, ord: u64)
        requires
            old(self).fit(),
            ord < old(self)@.actors.len(),
            old(self)@.actors.len() == old(self)@.ledger.len(),
            old(self)@.supervisor.is_child(names::supervisor_name_spec(ord), ord as int),
            old(self)@.ledger[ord as int].incarnation < u64::MAX,
            !old(self)@.registry.entries.contains_key(
                names::sim_id(ord, (old(self)@.ledger[ord as int].incarnation + 1) as u64).0,
            ),
            has_room(old(self)@.reborn(ord), World::start_of(ord)),
        ensures
            final(self).fit(),
            final(self)@ == old(self)@.respawn(ord),
    {
        let ghost w = self@;
        let place: usize = self.place(ord);
        let entry: ActorLedger = self.ledger[place];
        assert(w.ledger[ord as int] == entry@);
        let inc: u64 = entry.incarnation + 1;
        self.ledger.set(place, ActorLedger { incarnation: inc, ..entry });
        let gone: ActorId = self.actors[place];
        // Stale tasks and parked mail for the old incarnation resolve as
        // dead-target rejections.
        let _ = self.registry.unregister(&gone);
        self.ordinals.remove(&gone.0);
        let _ = self.supervisor.mark_child_running(&supervisor_name(ord));
        let id = sim_actor_id(ord, inc);
        let _ = self.registry.register_named(id, Some(actor_name(ord, inc)));
        self.actors.set(place, id);
        self.ordinals.insert(id.0, ord);
        self.trace.push(TraceOp::Spawn { ord });
        proof {
            assert(self@.ledger =~= w.reborn(ord).ledger);
            assert(self@.supervisor =~= w.reborn(ord).supervisor);
            assert(self@ =~= w.reborn(ord));
        }
        self.deliver_or_block(Self::start_payload(ord), 0);
    }

    /// Escalation: permanent death.
    fn kill(&mut self, ord: u64)
        requires
            old(self).fit(),
            ord < old(self)@.actors.len(),
            old(self)@.actors.len() == old(self)@.ledger.len(),
            old(self)@.stats.escalated < u64::MAX,
            old(self)@.registry.waiting(old(self)@.actors[ord as int]) == 0,
        ensures
            final(self).fit(),
            final(self)@ == old(self)@.kill(ord),
    {
        let ghost w = self@;
        let place: usize = self.place(ord);
        let id: ActorId = self.actors[place];
        let dropped: u64 = self.registry.clear_mailbox(&id) as u64;
        let entry: ActorLedger = self.ledger[place];
        assert(w.ledger[ord as int] == entry@);
        self.ledger.set(
            place,
            ActorLedger { dropped: entry.dropped + dropped, alive: false, ..entry },
        );
        self.stats.dropped = self.stats.dropped + dropped;
        self.stats.escalated = self.stats.escalated + 1;
        let _ = self.registry.unregister(&id);
        self.ordinals.remove(&id.0);
        self.trace.push(TraceOp::Kill { to: ord, dropped });
        proof {
            assert(self@.ledger =~= w.kill(ord).ledger);
            assert(self@.registry =~= w.kill(ord).registry);
            assert(self@ =~= w.kill(ord));
        }
    }
}

/// An actor is its supervisor's child of the same number.
proof fn lemma_is_child(w: World, ord: u64)
    requires
        w.sound(),
        ord < w.actors.len(),
    ensures
        w.supervisor.is_child(names::supervisor_name_spec(ord), ord as int),
{
    assert(w.actor_sound(ord as int));
    assert forall|j: int| 0 <= j < ord implies (#[trigger] w.supervisor.children[j]).name
        != names::supervisor_name_spec(ord) by {
        assert(w.actor_sound(j));
        if names::supervisor_name_spec(j as u64) == names::supervisor_name_spec(ord) {
            names::lemma_supervisor_name_injective(j as u64, ord);
        }
    }
}

impl Sim {
    /// Report the crash to the supervisor; restart or escalate.
    fn handle_restart(&mut self, ord: u64, Ghost(w): Ghost<World>)
        requires
            old(self).fit(),
            w.inv(Seq::empty()),
            !w.ready.is_clear(),
            is_viable(w.registry, w.next_task().id),
            w.next_task().mids.len() > 0,
            crashes::tells_apart(w),
            ord == w.next_task().ord,
            w.stats.blocked < u64::MAX,
            old(self)@ == crashes::wreck(w, old(self)@.rng),
        ensures
            final(self).fit(),
            final(self)@ == old(self)@.restart(ord),
    {
        let ghost u = self@;
        let ghost t = w.next_task();
        let ghost o = ord as int;
        proof {
            turns::lemma_can_take(w);
            scheduler::lemma_taken_sum(
                w.ready,
                w.config.policy,
                w.rng,
                w.tick as u64,
                soundness::astray(w.ledger),
            );
            crashes::lemma_wreck(w, u.rng);
            lemma_is_child(w, ord);
            lemma_counts_small(w, Seq::empty());
            assert(w.actor_sound(o));
            assert forall|i: int| 0 <= i < u.supervisor.children.len() implies (
            #[trigger] u.supervisor.children[i]).restarts < u64::MAX by {
                assert(w.actor_sound(i));
            }
        }
        let name = supervisor_name(ord);
        let reason = ExitReason::Error(SIM_CRASH_MESSAGE.to_string());
        let result = self.supervisor.handle_child_exit(&name, &reason);
        match result {
            Ok(()) => {
                self.stats.restarted = self.stats.restarted + 1;
                self.trace.push(TraceOp::Restart { to: ord, allowed: true });
                proof {
                    let v = u.answered(ord, true);
                    assert(u.grants(o));
                    assert(self@.supervisor.children =~= v.supervisor.children);
                    assert(self@ =~= v);
                    rounds::lemma_next_incarnation(w, t);
                    crashes::lemma_reborn_inv(w, u.rng);
                    crashes::lemma_fresh_identity(w, ord);
                    lemma_has_room(v.reborn(ord), World::start_of(ord), Seq::empty());
                    assert forall|j: int| 0 <= j < o implies (
                    #[trigger] v.supervisor.children[j]).name != name@ by {
                        assert(w.supervisor.children[j].name != name@);
                    }
                    assert(v.supervisor.is_child(name@, o));
                }
                self.respawn(ord);
            },
            Err(_) => {
                self.trace.push(TraceOp::Restart { to: ord, allowed: false });
                proof {
                    let v = u.answered(ord, false);
                    assert(!u.grants(o));
                    assert(self@.supervisor.children =~= v.supervisor.children);
                    assert(self@ =~= v);
                }
                self.kill(ord);
            },
        }
    }

    /// Run a dequeued task through the pipeline, crashing it or not, and
    /// account for what was observed.
    fn execute_task(&mut self, sim_task: SimTask, crash: bool, Ghost(w): Ghost<World>)
        requires
            old(self).fit(),
            w.inv(Seq::empty()),
            !w.ready.is_clear(),
            sim_task@ == w.next_task(),
            is_viable(w.registry, sim_task@.id),
            old(self)@ == (World { rng: old(self)@.rng, ..w.picked().dequeued(sim_task@) }),
            crash ==> crashes::tells_apart(w) && sim_task@.mids.len() > 0 && w.stats.blocked
                < u64::MAX,
        ensures
            final(self).wf(),
            final(self)@ == old(self)@.execute(sim_task@, crash),
    {
        let ghost u = self@;
        let ghost t = sim_task@;
        let ghost o = t.ord as int;
        proof {
            turns::lemma_can_take(w);
            scheduler::lemma_taken_sum(
                w.ready,
                w.config.policy,
                w.rng,
                w.tick as u64,
                soundness::astray(w.ledger),
            );
            turns::lemma_task_ok(w, t);
            turns::lemma_task_waits(w, t);
            rounds::lemma_turn_inv(w, u.rng, crash);
            assert(sim_task.task.additional_messages@.len() + 1 == t.msgs.len());
        }
        let ord: u64 = sim_task.ord;
        let mids: Vec<u64> = sim_task.mids;
        self.executor.arm_crash(crash);
        let _ = pipeline::process_task(&mut self.registry, sim_task.task, &mut self.executor);
        let records: Vec<ExecRecord> = self.executor.drain_records();
        self.executor.arm_crash(false);
        proof {
            lemma_counts_small(w, Seq::empty());
        }
        if crash {
            self.stats.crashed = self.stats.crashed + 1;
            proof {
                assert(self@ =~= u.struck(t));
                crashes::lemma_wreck(w, u.rng);
                assert forall|i: int| 0 <= i < mids@.len() implies #[trigger] mids@[i]
                    < u.budget() by {
                    assert(t.parcel().mids[i] < w.next_mid);
                }
                lemma_dropped_small(w, o);
            }
            self.settle_crash(ord, &mids);
            self.handle_restart(ord, Ghost(w));
        } else {
            proof {
                let v = World { registry: pipeline::ran(u.registry, t.id, t.msgs), ..u };
                assert(self@ =~= v);
                turns::lemma_observed(w, t);
                assert(records@ =~= pipeline::observed(u.registry, t.id, t.msgs));
                lemma_consumed_small(w, o);
                assert(w.actor_sound(o));
                assert(are_records_of(v, records@, o)) by {
                    assert forall|i: int| 0 <= i < records@.len() implies ({
                        let r = #[trigger] records@[i];
                        &&& v.ordinals.contains_key(r.actor.0)
                        &&& v.ordinals[r.actor.0] == o
                        &&& r.tag matches ExecTag::Custom(mid) ==> mid < v.budget()
                    }) by {
                        if soundness::is_batch(t.parcel()) {
                            assert(t.parcel().mids[i] < w.next_mid);
                        }
                    }
                }
                assert forall|k: int| 0 <= k < v.mid_times.len() implies #[trigger] v.mid_times[k]
                    + records@.len() <= u32::MAX by {
                    assert(w.mid_accounted(Seq::empty(), k));
                    parcels::lemma_pending_nonneg(w, soundness::holds(k as u64));
                }
            }
            self.account(&records, Ghost(o));
        }
    }

    /// Process one chosen task through the pipeline.
    fn process_chosen(&mut self, sim_task: SimTask, Ghost(w): Ghost<World>)
        requires
            old(self).fit(),
            w.inv(Seq::empty()),
            !w.ready.is_clear(),
            crashes::can_restart(w),
            w.stats.blocked + 2 * w.next_mid - w.stats.crashed <= u64::MAX,
            sim_task@ == w.next_task(),
            old(self)@ == w.picked(),
        ensures
            final(self).wf(),
            final(self)@ == w.step(),
    {
        proof {
            rounds::lemma_step_inv(w);
            rounds::lemma_step_is_turn(w);
            lemma_crash_room(w);
        }
        if !self.dequeue(&sim_task, Ghost(w)) {
            return ;
        }
        // Crash mid-message (application messages only).
        let crash: bool = sim_task.app_len() > 0 && self.rng.roll(self.config.faults.crash_prob);
        assert(self@ =~= World { rng: self@.rng, ..w.picked().dequeued(sim_task@) });
        self.execute_task(sim_task, crash, Ghost(w));
    }

    /// Take a chosen task off the queue account, and discard it when its
    /// actor is dead. Tells whether it is still to be run.
    fn dequeue(&mut self, sim_task: &SimTask, Ghost(w): Ghost<World>) -> (r: bool)
        requires
            old(self).fit(),
            w.inv(Seq::empty()),
            !w.ready.is_clear(),
            sim_task@ == w.next_task(),
            old(self)@ == w.picked(),
        ensures
            final(self).fit(),
            r == is_viable(w.registry, sim_task@.id),
            r ==> final(self)@ == w.picked().dequeued(sim_task@),
            !r ==> final(self).wf() && final(self)@ == w.picked().dequeued(sim_task@).discard(
                sim_task@,
            ),
    {
        let ghost t = sim_task@;
        proof {
            turns::lemma_can_take(w);
            scheduler::lemma_taken_sum(
                w.ready,
                w.config.policy,
                w.rng,
                w.tick as u64,
                soundness::astray(w.ledger),
            );
            turns::lemma_task_ok(w, t);
            lemma_queued_term(w, t);
        }
        let ord: u64 = sim_task.ord();
        let len: u64 = sim_task.app_len() as u64;
        let place: usize = self.place(ord);
        let entry: ActorLedger = self.ledger[place];
        assert(w.ledger[ord as int] == entry@);
        self.ledger.set(place, ActorLedger { queued: entry.queued - len, ..entry });
        let ghost u = w.picked().dequeued(t);
        proof {
            assert(self@.ledger =~= u.ledger);
            assert(self@ =~= u);
        }
        let viable: bool = match self.registry.get_state(&sim_task.task.actor_id) {
            Some(state) => state == ActorState::Creating || state == ActorState::Running,
            None => false,
        };
        if viable {
            return true;
        }
        // The pipeline drops tasks of dead actors; what they held is lost.
        let mut i: usize = 0;
        proof {
            assert(t.mids.take(0) =~= Seq::empty());
            assert(lose(u.mid_lost, Seq::empty()) =~= u.mid_lost);
        }
        while i < sim_task.mids.len()
            invariant
                i <= sim_task.mids@.len(),
                self.fit(),
                t == sim_task@,
                u.mid_lost.len() <= u64::MAX,
                self@ == (World { mid_lost: lose(u.mid_lost, t.mids.take(i as int)), ..u }),
            decreases sim_task.mids@.len() - i,
        {
            let mid: u64 = sim_task.mids[i];
            self.mark_lost(mid);
            proof {
                let a = t.mids.take(i as int);
                let b = t.mids.take(i + 1);
                assert(b =~= a.push(mid));
                assert forall|k: int| 0 <= k < u.mid_lost.len() implies b.contains(k as u64) == (
                a.contains(k as u64) || #[trigger] seq![mid].contains(k as u64)) by {
                    lemma_push_contains(a, mid, k as u64);
                    assert(seq![mid][0] == mid);
                }
                assert(self@.mid_lost =~= lose(u.mid_lost, b));
                assert(self@ =~= World { mid_lost: lose(u.mid_lost, b), ..u });
            }
            i = i + 1;
        }
        if len > 0 {
            self.trace.push(TraceOp::Discard { first: sim_task.mids[0], len, to: ord });
        }
        proof {
            assert(t.mids.take(i as int) =~= t.mids);
            assert(self@ =~= u.discard(t));
            turns::lemma_discard_inv(w);
        }
        self.executor.arm_crash(false);
        false
    }
}

/// A task's messages are part of what is queued for its actor.
proof fn lemma_queued_term(w: World, t: SimTaskView)
    requires
        w.inv(Seq::empty()),
        w.ready.tasks().contains(t),
        t.ord < w.actors.len(),
    ensures
        w.ledger[t.ord as int].queued >= t.mids.len(),
{
    let o = t.ord as int;
    let tasks = w.ready.tasks();
    let i = tasks.index_of(t);
    assert(w.actor_balanced(o));
    lemma_sum_nonneg(tasks, queued_by(o));
    assert(queued_by(o)(tasks[i]) <= sum_of(tasks, queued_by(o)));
}

/// What an actor consumed is part of what all consumed.
proof fn lemma_consumed_small(w: World, o: int)
    requires
        w.inv(Seq::empty()),
        0 <= o < w.actors.len(),
    ensures
        w.ledger[o].consumed <= w.stats.processed + w.stats.system_processed,
{
    assert forall|i: int| 0 <= i < w.ledger.len() implies #[trigger] soundness::consumed_of()(
        w.ledger[i],
    ) >= 0 by {
        assert(w.actor_balanced(i));
    }
    turns::lemma_term_bound(w.ledger, soundness::consumed_of(), o);
}

/// What all actors dropped, and what one more crash drops, was delivered.
proof fn lemma_dropped_small(w: World, o: int)
    requires
        w.inv(Seq::empty()),
        0 <= o < w.actors.len(),
    ensures
        w.stats.dropped + w.registry.waiting(w.actors[o]) <= w.stats.delivered,
{
    let kept = |l: LedgerView| l.delivered - l.dropped;
    assert forall|i: int| 0 <= i < w.ledger.len() implies #[trigger] kept(w.ledger[i]) >= 0 by {
        assert(w.actor_balanced(i));
    }
    turns::lemma_term_bound(w.ledger, kept, o);
    crate::sums::lemma_sum_plus(w.ledger, kept, soundness::dropped_of(), delivered_of());
    assert(w.actor_balanced(o));
}

/// When a task can crash, one more delivery can be parked.
proof fn lemma_crash_room(w: World)
    requires
        w.inv(Seq::empty()),
        !w.ready.is_clear(),
        w.stats.blocked + 2 * w.next_mid - w.stats.crashed <= u64::MAX,
    ensures
        w.next_task().mids.len() > 0 ==> w.stats.blocked < u64::MAX,
{
    let t = w.next_task();
    turns::lemma_can_take(w);
    parcels::lemma_picked_sums(w, apps());
    parcels::lemma_pending_nonneg(w.picked(), apps());
    parcels::lemma_pending_nonneg(w, apps());
}

/// Whether an actor's mailbox holds what its account says.
pub open spec fn account_ok(w: World, o: int) -> bool {
    w.ledger[o].alive && w.registry.entries.contains_key(w.actors[o].0) ==> w.registry.waiting(
        w.actors[o],
    ) == monus(monus(w.ledger[o].delivered, w.ledger[o].consumed), w.ledger[o].dropped)
}

/// What is audited after every round: slot conservation for every live actor
/// and, where restarts are limited, the restarts of all actors together and of
/// each.
pub open spec fn counts_ok(w: World) -> bool {
    &&& forall|o: int| 0 <= o < w.ledger.len() ==> #[trigger] account_ok(w, o)
    &&& w.config.max_restarts > 0 ==> {
        &&& w.supervisor.total_restarts() <= w.config.max_restarts * w.actors.len()
        &&& forall|o: int|
            0 <= o < w.actors.len() ==> sum_of(w.trace, #[trigger] soundness::granted(o))
                <= w.config.max_restarts
    }
}

/// Whether a message is processed or lost, and not processed twice where
/// nothing is duplicated.
pub open spec fn identity_ok(w: World, i: int) -> bool {
    &&& w.mid_times[i] >= 1 || w.mid_lost[i]
    &&& w.config.faults.duplicate_prob is Never ==> w.mid_times[i] <= 1
}

/// What is audited at quiescence: every injected message is processed or
/// accounted lost, and processed once where nothing is duplicated.
pub open spec fn identities_ok(w: World) -> bool {
    forall|i: int| 0 <= i < w.next_mid ==> #[trigger] identity_ok(w, i)
}

/// Whether an outcome says what running up to `n` rounds comes to.
pub open spec fn reports(w: World, n: nat, r: SimOutcome) -> bool {
    &&& r.seed == w.seed
    &&& r.quiesced == w.run(n).quiescent()
    &&& r.steps == w.rounds(n)
    &&& r.trace_hash == trace::fnv1a_spec(trace::trace_encoded(w.run(n).trace))
    &&& r.trace_ops == w.run(n).trace.len()
    &&& r.stats@ == w.run(n).stats
}

impl Sim {
    /// True when nothing can ever run or arrive again.
    fn is_quiescent(&self) -> (r: bool)
        requires
            self.wf(),
        ensures
            r == self@.quiescent(),
    {
        let ghost w = self@;
        if self.next_mid < self.mid_times.len() as u64 || self.delayed.len() > 0
            || self.blocked.len() > 0 || !self.ready.is_empty() || self.ready.total_queued_msgs()
            != 0 {
            return false;
        }
        let mut i: usize = 0;
        while i < self.ledger.len()
            invariant
                i <= self.ledger@.len(),
                w == self@,
                self.wf(),
                forall|o: int|
                    0 <= o < i && (#[trigger] w.ledger[o]).alive ==> w.registry.waiting(w.actors[o])
                        == 0,
            decreases self.ledger@.len() - i,
        {
            assert(w.ledger[i as int] == self.ledger@[i as int]@);
            if self.ledger[i].alive {
                if let Some(mailbox) = self.registry.get_mailbox(&self.actors[i]) {
                    if !mailbox.is_empty() {
                        return false;
                    }
                }
            }
            i = i + 1;
        }
        true
    }

    /// Slot/permit conservation + restart accounting.
    ///
    /// Every delivered mailbox copy is removed exactly once, by consumption
    /// or by a drain; no actor is restarted past its budget.
    pub fn audit_counts(&self) -> (r: bool)
        requires
            self.wf(),
        ensures
            r == counts_ok(self@),
    {
        let ghost w = self@;
        let mut i: usize = 0;
        while i < self.ledger.len()
            invariant
                i <= self.ledger@.len(),
                w == self@,
                self.wf(),
                forall|o: int| 0 <= o < i ==> #[trigger] account_ok(w, o),
            decreases self.ledger@.len() - i,
        {
            assert(w.ledger[i as int] == self.ledger@[i as int]@);
            let entry: ActorLedger = self.ledger[i];
            if entry.alive {
                if let Some(mailbox) = self.registry.get_mailbox(&self.actors[i]) {
                    let expected: u64 = entry.delivered.saturating_sub(
                        entry.consumed,
                    ).saturating_sub(entry.dropped);
                    if mailbox.len() as u64 != expected {
                        assert(!account_ok(w, i as int));
                        return false;
                    }
                }
            }
            assert(account_ok(w, i as int));
            i = i + 1;
        }
        if self.config.max_restarts == 0 {
            return true;
        }
        proof {
            lemma_counts_small(w, Seq::empty());
        }
        let restarts: u64 = self.supervisor.total_restarts();
        let limit: u128 = self.config.max_restarts as u128;
        let count: u128 = self.actors.len() as u128;
        assert(limit * count <= u128::MAX) by (nonlinear_arith)
            requires
                limit <= u32::MAX,
                count <= u64::MAX,
        ;
        if restarts as u128 > limit * count {
            return false;
        }
        self.audit_trace()
    }

    /// Whether the trace shows no actor restarted past its budget.
    fn audit_trace(&self) -> (r: bool)
        requires
            self.wf(),
        ensures
            r == (forall|o: int|
                0 <= o < self@.actors.len() ==> sum_of(self@.trace, #[trigger] soundness::granted(o))
                    <= self@.config.max_restarts),
    {
        let ghost w = self@;
        let n: usize = self.actors.len();
        let mut grants: Vec<u64> = vec![0u64; n];
        let mut i: usize = 0;
        proof {
            assert(w.trace.take(0) =~= Seq::empty());
        }
        while i < self.trace.len()
            invariant
                i <= self.trace@.len(),
                w == self@,
                self.wf(),
                n == w.actors.len(),
                grants@.len() == n,
                forall|o: int|
                    0 <= o < n ==> sum_of(w.trace.take(i as int), #[trigger] soundness::granted(o))
                        == grants@[o],
                forall|o: int| 0 <= o < n ==> #[trigger] grants@[o] <= self.config.max_restarts,
            decreases self.trace@.len() - i,
        {
            let op = self.trace[i];
            let ghost before = grants@;
            proof {
                assert(w.op_true(w.trace[i as int]));
                assert(w.trace.take(i + 1) =~= w.trace.take(i as int).push(op));
                assert forall|o: int| 0 <= o < n implies sum_of(
                    w.trace.take(i + 1),
                    #[trigger] soundness::granted(o),
                ) == before[o] + soundness::granted(o)(op) by {
                    lemma_sum_push(w.trace.take(i as int), op, soundness::granted(o));
                }
            }
            if let TraceOp::Restart { to, allowed } = op {
                if allowed {
                    let at: usize = self.place(to);
                    assert(before[to as int] <= self.config.max_restarts);
                    let more: u64 = grants[at] + 1;
                    if more > self.config.max_restarts as u64 {
                        proof {
                            let f = soundness::granted(to as int);
                            lemma_sum_add(w.trace.take(i + 1), w.trace.skip(i + 1), f);
                            assert(w.trace.take(i + 1) + w.trace.skip(i + 1) =~= w.trace);
                            lemma_sum_nonneg(w.trace.skip(i + 1), f);
                            assert(sum_of(w.trace, f) > w.config.max_restarts);
                        }
                        return false;
                    }
                    grants.set(at, more);
                }
            }
            i = i + 1;
        }
        proof {
            assert(w.trace.take(i as int) =~= w.trace);
            assert forall|o: int| 0 <= o < w.actors.len() implies sum_of(
                w.trace,
                #[trigger] soundness::granted(o),
            ) <= w.config.max_restarts by {
                assert(grants@[o] <= self.config.max_restarts);
            }
        }
        true
    }

    /// Delivery accounting, audited at quiescence.
    pub fn audit_identities(&self) -> (r: bool)
        requires
            self.wf(),
        ensures
            r == identities_ok(self@),
    {
        let ghost w = self@;
        let exactly_once: bool = self.config.faults.duplicate_prob == Probability::Never;
        let mut mid: u64 = 0;
        while mid < self.next_mid
            invariant
                mid <= self.next_mid,
                w == self@,
                self.wf(),
                exactly_once == (w.config.faults.duplicate_prob is Never),
                forall|i: int| 0 <= i < mid ==> #[trigger] identity_ok(w, i),
            decreases self.next_mid - mid,
        {
            let at: usize = self.index_of(mid);
            let times: u32 = self.mid_times[at];
            assert(w.mid_times[mid as int] == times);
            if (times < 1 && !self.mid_lost[at]) || (exactly_once && times > 1) {
                assert(!identity_ok(w, mid as int));
                return false;
            }
            assert(identity_ok(w, mid as int));
            mid = mid + 1;
        }
        true
    }

    /// Choose a task and process it, unless nothing is ready. Tells whether a
    /// task was processed.
    fn step(&mut self) -> (r: bool)
        requires
            old(self).wf(),
            crashes::can_restart(old(self)@),
            old(self)@.stats.blocked + 2 * old(self)@.next_mid - old(self)@.stats.crashed
                <= u64::MAX,
        ensures
            final(self).wf(),
            r == !old(self)@.ready.is_clear(),
            r ==> final(self)@ == old(self)@.step(),
            !r ==> final(self)@ == old(self)@,
    {
        let ghost w = self@;
        match self.ready.pick(self.config.policy, &mut self.rng, self.tick) {
            Some(sim_task) => {
                assert(self@ =~= w.picked());
                self.process_chosen(sim_task, Ghost(w));
                true
            },
            None => {
                assert(self@ =~= w);
                false
            },
        }
    }

    /// Choose a task and process it, crashing its actor or not as told (only
    /// application messages can crash). Tells whether there was a task.
    pub fn step_as(&mut self, crash: bool) -> (r: bool)
        requires
            old(self).wf(),
            crash ==> crashes::tells_apart(old(self)@) && old(self)@.stats.blocked < u64::MAX,
        ensures
            final(self).wf(),
            r == !old(self)@.ready.is_clear(),
            r ==> final(self)@ == old(self)@.step_as(crash),
            !r ==> final(self)@ == old(self)@,
    {
        let ghost w = self@;
        match self.ready.pick(self.config.policy, &mut self.rng, self.tick) {
            Some(sim_task) => {
                assert(self@ =~= w.picked());
                if self.dequeue(&sim_task, Ghost(w)) {
                    let strikes: bool = crash && sim_task.app_len() > 0;
                    self.execute_task(sim_task, strikes, Ghost(w));
                }
                true
            },
            None => {
                assert(self@ =~= w);
                false
            },
        }
    }

    /// One scheduling round: advance the virtual clock one tick, inject
    /// workload, land due and unblocked deliveries, then make
    /// `processing_per_tick` task-selection decisions.
    #[verifier::spinoff_prover]
    fn round(&mut self)
        requires
            old(self).wf(),
            can_round(old(self)@),
        ensures
            final(self).wf(),
            final(self)@ == old(self)@.round(),
    {
        let ghost w = self@;
        proof {
            headroom::lemma_round_parts(w);
        }
        self.tick = self.tick + 1;
        let _ = self.clock.advance(clock::from_micros(TICK_MICROS));
        assert(self@ =~= w.advanced());
        self.inject_workload();
        self.deliver_due();
        self.retry_blocked();
        let mut left: u64 = self.config.processing_per_tick;
        let mut busy: bool = true;
        while left > 0 && busy
            invariant
                self.wf(),
                headroom::can_step(self@),
                busy ==> self@.step_times(left as nat) == w.round(),
                !busy ==> self@ == w.round(),
            decreases left,
        {
            proof {
                headroom::lemma_one_step(self@, left as nat);
            }
            busy = self.step();
            left = left - 1;
        }
    }

    /// Run up to `steps` scheduling rounds, stopping early at quiescence.
    ///
    /// The counts are audited after every round, and the identities at
    /// quiescence. See [`can_run_for`] for when a run is possible, and
    /// [`Sim::try_run`] for one that sees to that.
    #[verifier::spinoff_prover]
    pub fn run(&mut self, steps: u64) -> (r: SimOutcome)
        requires
            old(self).wf(),
            can_run_for(old(self)@, steps as nat),
        ensures
            final(self).wf(),
            final(self)@ == old(self)@.run(steps as nat),
            r.steps > 0 ==> counts_ok(final(self)@),
            r.quiesced ==> identities_ok(final(self)@),
            reports(old(self)@, steps as nat, r),
    {
        let ghost w = self@;
        proof {
            headroom::lemma_ahead(w, steps as nat);
        }
        let mut executed: u64 = 0;
        let mut idle: bool = self.is_quiescent();
        while executed < steps && !idle
            invariant
                executed <= steps,
                self.wf(),
                idle == self@.quiescent(),
                headroom::is_clear_ahead(self@, (steps - executed) as nat),
                self@.seed == w.seed,
                self@.run((steps - executed) as nat) == w.run(steps as nat),
                executed + self@.rounds((steps - executed) as nat) == w.rounds(steps as nat),
                executed > 0 ==> counts_ok(self@),
            decreases steps - executed,
        {
            proof {
                headroom::lemma_one_round(self@, (steps - executed) as nat);
            }
            self.round();
            executed = executed + 1;
            let balanced: bool = self.audit_counts();
            assert(balanced);
            idle = self.is_quiescent();
        }
        proof {
            headroom::lemma_at_rest(self@, (steps - executed) as nat);
        }
        if idle {
            let closed: bool = self.audit_identities();
            assert(closed);
        }
        SimOutcome {
            seed: self.seed,
            quiesced: idle,
            steps: executed,
            trace_hash: self.trace_hash(),
            trace_ops: self.trace.len(),
            stats: self.stats,
        }
    }

    /// Run until quiescence or the step budget ([`DEFAULT_STEP_BUDGET`]).
    ///
    /// `quiesced == false` in the outcome means that the workload did not
    /// drain within the budget.
    pub fn run_to_quiescence(&mut self) -> (r: SimOutcome)
        requires
            old(self).wf(),
            can_run_for(old(self)@, DEFAULT_STEP_BUDGET as nat),
        ensures
            final(self).wf(),
            final(self)@ == old(self)@.run(DEFAULT_STEP_BUDGET as nat),
            r.steps > 0 ==> counts_ok(final(self)@),
            r.quiesced ==> identities_ok(final(self)@),
            reports(old(self)@, DEFAULT_STEP_BUDGET as nat, r),
    {
        self.run(DEFAULT_STEP_BUDGET)
    }

    /// The most ticks by which a copy of an event can be postponed.
    fn longest_postponement(&self) -> (r: u128)
        ensures
            r == longest_delay(self@.config.faults),
    {
        let faults = self.config.faults;
        let delay: u64 = if faults.delay_prob == Probability::Never {
            0
        } else if faults.delay_ticks_max <= faults.delay_ticks_min {
            faults.delay_ticks_min
        } else {
            faults.delay_ticks_max
        };
        let gap: u64 = if faults.duplicate_prob == Probability::Never {
            0
        } else {
            DUPLICATE_GAP_TICKS
        };
        delay as u128 + gap as u128
    }

    /// Whether there is room for `steps` rounds, whatever they come to.
    fn has_room_for(&self, steps: u64) -> (r: bool)
        requires
            self.wf(),
        ensures
            r == has_room_for(self@, steps as nat),
    {
        let budget: u64 = self.mid_times.len() as u64;
        let allowed: u32 = self.supervisor.max_restarts();
        let peopled: bool = self.actors.len() > 0 || self.next_mid >= budget;
        let distinct: bool = (0 < allowed && (allowed as u64) < DISTINCT_INCARNATIONS) || 2 * budget
            < DISTINCT_INCARNATIONS || self.config.faults.crash_prob == Probability::Never;
        let countable: bool = self.config.injection_rate.fraction == Probability::Never
            || self.config.injection_rate.whole < u64::MAX;
        let last: u128 = self.tick as u128 + steps as u128 + self.longest_postponement();
        let limited: bool = self.config.max_restarts == 0 || (0 < allowed && allowed
            <= self.config.max_restarts);
        let single: bool = self.config.faults.duplicate_prob != Probability::Never
            || self.stats.duplicates == 0;
        let parked: u128 = 9 * (budget as u128) + self.actors.len() as u128;
        let small: bool = match (steps as u128).checked_mul(parked) {
            Some(n) => n <= (u64::MAX - self.stats.blocked) as u128,
            None => false,
        };
        peopled && distinct && countable && last <= u64::MAX as u128 && limited && single && small
    }

    /// Run up to `steps` scheduling rounds if there is room for as many,
    /// whatever they come to. Otherwise nothing happens.
    pub fn try_run(&mut self, steps: u64) -> (r: Option<SimOutcome>)
        requires
            old(self).wf(),
        ensures
            final(self).wf(),
            r is Some <==> has_room_for(old(self)@, steps as nat),
            r is None ==> final(self)@ == old(self)@,
            r matches Some(x) ==> {
                &&& final(self)@ == old(self)@.run(steps as nat)
                &&& reports(old(self)@, steps as nat, x)
                &&& x.steps > 0 ==> counts_ok(final(self)@)
                &&& x.quiesced ==> identities_ok(final(self)@)
            },
    {
        if self.has_room_for(steps) {
            Some(self.run(steps))
        } else {
            None
        }
    }

    /// Run until quiescence or the step budget if there is room for that,
    /// whatever the rounds come to. Otherwise nothing happens.
    pub fn try_run_to_quiescence(&mut self) -> (r: Option<SimOutcome>)
        requires
            old(self).wf(),
        ensures
            final(self).wf(),
            r is Some <==> has_room_for(old(self)@, DEFAULT_STEP_BUDGET as nat),
            r is None ==> final(self)@ == old(self)@,
            r matches Some(x) ==> {
                &&& final(self)@ == old(self)@.run(DEFAULT_STEP_BUDGET as nat)
                &&& reports(old(self)@, DEFAULT_STEP_BUDGET as nat, x)
                &&& x.steps > 0 ==> counts_ok(final(self)@)
                &&& x.quiesced ==> identities_ok(final(self)@)
            },
    {
        if self.has_room_for(DEFAULT_STEP_BUDGET) {
            Some(self.run_to_quiescence())
        } else {
            None
        }
    }

    /// Mutable access to the run configuration.
    ///
    /// World-shape fields (`actors`, `messages`, `mailbox`) are captured at
    /// construction; changing them afterwards has no effect.
    pub fn config_mut(&mut self) -> (r: &mut SimConfig)
        requires
            old(self).wf(),
        ensures
            *r == old(self)@.config,
            final(self)@ == (World { config: *final(r), ..old(self)@ }),
            final(self).wf(),
    {
        let ghost w = self@;
        proof {
            assert forall|config: SimConfig| #[trigger]
                (World { config, ..w }).inv(Seq::empty()) by {
                upkeep::lemma_rng_inv(w, World { config, ..w }, Seq::empty());
            }
        }
        &mut self.config
    }

    /// The virtual clock (observes simulated time).
    pub fn clock(&self) -> (r: &SimClock)
        ensures
            r@ == self@.clock,
    {
        &self.clock
    }

    /// The registry backing this simulation.
    pub fn registry(&self) -> (r: &ActorRegistry)
        requires
            self.wf(),
        ensures
            r@ == self@.registry,
            r.wf(),
    {
        &self.registry
    }

    /// The sim executor (observation oracle). Between rounds it holds no
    /// records and is disarmed.
    pub fn executor(&self) -> (r: &SimExecutor)
        requires
            self.wf(),
        ensures
            r@ == Seq::<ExecRecord>::empty(),
            !r.armed(),
    {
        &self.executor
    }

    /// The full operation trace of the run so far.
    pub fn trace(&self) -> (r: &[TraceOp])
        ensures
            r@ == self@.trace,
    {
        self.trace.as_slice()
    }

    /// FNV-1a hash of the operation trace — the determinism witness.
    pub fn trace_hash(&self) -> (r: u64)
        ensures
            r == trace::fnv1a_spec(trace::trace_encoded(self@.trace)),
    {
        trace::hash_of(self.trace.as_slice())
    }

    /// Counters so far.
    pub fn stats(&self) -> (r: SimStats)
        ensures
            r@ == self@.stats,
    {
        self.stats
    }
}

/// The counters of a sound world are far from their limits.
proof fn lemma_counts_small(w: World, hand: Seq<Parcel>)
    requires
        w.inv(hand),
    ensures
        w.stats.delayed + w.delayed.len() <= 2 * w.budget(),
        w.stats.crashed <= 2 * w.budget(),
        w.stats.processed + w.stats.system_processed <= 4 * w.budget() + w.actors.len(),
        w.stats.delivered <= 4 * w.budget() + w.actors.len(),
        4 * w.budget() + w.actors.len() + 8 <= u64::MAX,
{
    parcels::lemma_pending_nonneg(w, apps());
    parcels::lemma_pending_nonneg(w, sizes());
    parcels::lemma_pending_nonneg(w, starts());
    lemma_sum_nonneg(hand, apps());
    lemma_sum_nonneg(hand, sizes());
    lemma_sum_nonneg(hand, starts());
}

/// What a list with one more element holds.
proof fn lemma_push_contains(s: Seq<u64>, x: u64, y: u64)
    ensures
        s.push(x).contains(y) == (s.contains(y) || x == y),
{
    if s.contains(y) {
        let i = s.index_of(y);
        assert(s.push(x)[i] == y);
    }
    if x == y {
        assert(s.push(x)[s.len() as int] == y);
    }
    if s.push(x).contains(y) {
        let i = s.push(x).index_of(y);
        if i < s.len() {
            assert(s[i] == y);
        }
    }
}

} // verus!
