//! What holds in every reachable world.
//!
//! The invariants speak of a world together with the parcels "in hand": those
//! that a step has taken from where they waited and not yet put anywhere.
use crate::sim::names::{sim_id, supervisor_name_spec, DISTINCT_INCARNATIONS};
use crate::sim::parcels::Parcel;
use crate::sim::scheduler::SimTaskView;
use crate::sim::trace::TraceOp;
use crate::sim::world::{start_msg, LaterView, LedgerView, World, MAX_BATCH};
use crate::bytes::word_bytes;
use crate::sums::sum_of;
use crate::supervisor::RestartPolicy;
use crate::{ActorId, PayloadView};
use vstd::prelude::*;

verus! {

/// Whether identities follow one another.
pub open spec fn consecutive(mids: Seq<u64>) -> bool {
    forall|i: int| 0 <= i < mids.len() ==> #[trigger] mids[i] == mids[0] + i
}

/// Whether a parcel holds one start message, or a batch of application
/// messages with its identities.
pub open spec fn is_batch(p: Parcel) -> bool {
    &&& p.msgs.len() == p.mids.len()
    &&& 0 < p.mids.len() <= MAX_BATCH
    &&& consecutive(p.mids)
    &&& forall|i: int|
        0 <= i < p.msgs.len() ==> (#[trigger] p.msgs[i]).payload == PayloadView::Custom(
            word_bytes(p.mids[i]),
        )
}

/// Whether a parcel holds just a start message.
pub open spec fn is_start(p: Parcel) -> bool {
    p.mids.len() == 0 && p.msgs == seq![start_msg()]
}

/// Whether a parcel is addressed to one of `actors` actors and speaks of
/// identities below `next` only.
pub open spec fn parcel_fits(actors: int, next: int, p: Parcel) -> bool {
    &&& p.ord < actors
    &&& is_start(p) || is_batch(p)
    &&& forall|i: int| 0 <= i < p.mids.len() ==> #[trigger] p.mids[i] < next
}

/// One for every parcel that does not fit.
pub open spec fn unfit(actors: int, next: int) -> spec_fn(Parcel) -> int {
    |p: Parcel|
        if parcel_fits(actors, next, p) {
            0
        } else {
            1
        }
}

/// Application messages in a parcel.
pub open spec fn apps() -> spec_fn(Parcel) -> int {
    |p: Parcel| p.mids.len() as int
}

/// One for every start message.
pub open spec fn starts() -> spec_fn(Parcel) -> int {
    |p: Parcel|
        if p.mids.len() == 0 {
            1
        } else {
            0
        }
}

/// Messages in a parcel.
pub open spec fn sizes() -> spec_fn(Parcel) -> int {
    |p: Parcel| p.msgs.len() as int
}

/// One for every parcel with the given message.
pub open spec fn holds(mid: u64) -> spec_fn(Parcel) -> int {
    |p: Parcel|
        if p.mids.contains(mid) {
            1
        } else {
            0
        }
}

/// Whether a task is for an incarnation that its actor has had.
pub open spec fn is_placed(ledger: Seq<LedgerView>, t: SimTaskView) -> bool {
    &&& t.ord < ledger.len()
    &&& exists|inc: int|
        0 <= inc <= ledger[t.ord as int].incarnation && t.id == #[trigger] sim_id(
            t.ord,
            inc as u64,
        )
}

/// One for every task that is for no such incarnation.
pub open spec fn astray(ledger: Seq<LedgerView>) -> spec_fn(SimTaskView) -> int {
    |t: SimTaskView|
        if is_placed(ledger, t) {
            0
        } else {
            1
        }
}

/// Messages in a task for the given incarnation.
pub open spec fn sized_for(id: ActorId) -> spec_fn(SimTaskView) -> int {
    |t: SimTaskView|
        if t.id == id {
            t.msgs.len() as int
        } else {
            0
        }
}

/// Application messages in a task for the given actor.
pub open spec fn queued_by(o: int) -> spec_fn(SimTaskView) -> int {
    |t: SimTaskView|
        if t.ord == o {
            t.mids.len() as int
        } else {
            0
        }
}

/// Application messages in a task for a registered incarnation.
pub open spec fn apps_if_live(live: Set<u128>) -> spec_fn(SimTaskView) -> int {
    |t: SimTaskView|
        if live.contains(t.id.0) {
            t.mids.len() as int
        } else {
            0
        }
}

/// One for every restart granted to the given actor.
pub open spec fn granted(o: int) -> spec_fn(TraceOp) -> int {
    |op: TraceOp|
        match op {
            TraceOp::Restart { to, allowed } => if to == o && allowed {
                1
            } else {
                0
            },
            _ => 0,
        }
}

/// Copies accepted for an actor.
pub open spec fn delivered_of() -> spec_fn(LedgerView) -> int {
    |l: LedgerView| l.delivered
}

/// Messages processed by an actor.
pub open spec fn consumed_of() -> spec_fn(LedgerView) -> int {
    |l: LedgerView| l.consumed
}

/// Copies lost by an actor.
pub open spec fn dropped_of() -> spec_fn(LedgerView) -> int {
    |l: LedgerView| l.dropped
}

/// A number as itself.
pub open spec fn itself() -> spec_fn(int) -> int {
    |n: int| n
}

impl World {
    /// The sum over all that is under way or in hand.
    pub open spec fn total(self, hand: Seq<Parcel>, f: spec_fn(Parcel) -> int) -> int {
        self.pending(f) + sum_of(hand, f)
    }

    /// An actor's identity, registration and supervision agree.
    pub open spec fn actor_sound(self, o: int) -> bool {
        let l = self.ledger[o];
        let id = self.actors[o];
        &&& id == sim_id(o as u64, l.incarnation as u64)
        &&& 0 <= l.incarnation < DISTINCT_INCARNATIONS
        &&& l.alive ==> {
            &&& self.registry.entries.contains_key(id.0)
            &&& self.registry.entries[id.0].state.viable()
            &&& self.registry.entries[id.0].mailbox.config == self.registry.config
            &&& self.ordinals.contains_key(id.0)
            &&& self.ordinals[id.0] == o
        }
        &&& self.supervisor.children[o].name == supervisor_name_spec(o as u64)
        &&& self.supervisor.children[o].policy == RestartPolicy::Permanent
        &&& self.supervisor.children[o].restarts == l.incarnation
        &&& self.supervisor.max_restarts == 0 || l.incarnation <= self.supervisor.max_restarts
        &&& l.alive || self.stats.crashed > 0
    }

    /// A registered identifier belongs to a live actor.
    pub open spec fn key_sound(self, k: u128) -> bool {
        &&& self.registry.entries.contains_key(k) ==> self.ordinals.contains_key(k)
        &&& self.ordinals.contains_key(k) ==> {
            let o = self.ordinals[k] as int;
            &&& o < self.actors.len()
            &&& self.actors[o].0 == k
            &&& self.ledger[o].alive
        }
    }

    /// Identities, registration and supervision agree.
    pub open spec fn sound(self) -> bool {
        &&& self.actors.len() == self.ledger.len()
        &&& self.actors.len() == self.supervisor.children.len()
        &&& 16 * self.actors.len() <= isize::MAX
        &&& 4 * self.budget() <= isize::MAX
        &&& self.mid_lost.len() == self.budget()
        &&& 0 <= self.next_mid <= self.budget()
        &&& self.registry.config.capacity > 0
        &&& forall|o: int| 0 <= o < self.actors.len() ==> #[trigger] self.actor_sound(o)
        &&& forall|k: u128| #[trigger] self.key_sound(k)
    }

    /// Every parcel is well-made, and every task is for an incarnation that
    /// its actor has had.
    pub open spec fn proper(self, hand: Seq<Parcel>) -> bool {
        &&& self.total(hand, unfit(self.actors.len() as int, self.next_mid)) == 0
        &&& sum_of(self.ready.tasks(), astray(self.ledger)) == 0
    }

    /// An actor's mailbox holds what was delivered and neither processed nor
    /// dropped, and that is what its queued tasks hold.
    pub open spec fn actor_balanced(self, o: int) -> bool {
        let l = self.ledger[o];
        &&& l.delivered >= 0 && l.consumed >= 0 && l.dropped >= 0
        &&& self.registry.waiting(self.actors[o]) == l.delivered - l.consumed - l.dropped
        &&& l.alive ==> self.registry.waiting(self.actors[o]) == sum_of(
            self.ready.tasks(),
            sized_for(self.actors[o]),
        )
        &&& l.queued == sum_of(self.ready.tasks(), queued_by(o))
    }

    /// Every actor's account is balanced.
    pub open spec fn balanced(self) -> bool {
        forall|o: int| 0 <= o < self.actors.len() ==> #[trigger] self.actor_balanced(o)
    }

    /// Every message is accounted for: one that was injected was processed,
    /// lost, or is under way, and there are at most two copies of it, or one
    /// when nothing was duplicated.
    pub open spec fn mid_accounted(self, hand: Seq<Parcel>, i: int) -> bool {
        let n = self.total(hand, holds(i as u64));
        &&& self.mid_times[i] >= 0
        &&& self.mid_times[i] + n <= 2
        &&& self.stats.duplicates == 0 ==> self.mid_times[i] + n <= 1
        &&& i < self.next_mid ==> self.mid_times[i] >= 1 || self.mid_lost[i] || n >= 1
        &&& i >= self.next_mid ==> self.mid_times[i] == 0 && !self.mid_lost[i] && n == 0
        &&& self.mid_lost[i] ==> self.stats.rejected > 0 || self.stats.crashed > 0
    }

    /// Every message is accounted for.
    pub open spec fn accounted(self, hand: Seq<Parcel>) -> bool {
        forall|i: int| 0 <= i < self.budget() ==> #[trigger] self.mid_accounted(hand, i)
    }

    /// The counters agree with one another and with what is under way.
    pub open spec fn counted(self, hand: Seq<Parcel>) -> bool {
        let s = self.stats;
        &&& s.injected == self.next_mid
        &&& 0 <= s.duplicates <= self.next_mid
        &&& s.processed >= 0 && s.rejected >= 0 && s.crashed >= 0
        &&& s.processed + s.rejected + s.crashed + self.total(hand, apps()) <= 2 * self.next_mid
        &&& s.restarted >= 0 && s.escalated >= 0
        &&& s.restarted + s.escalated == s.crashed
        &&& self.supervisor.total_restarts() == s.restarted
        &&& s.system_processed >= 0
        &&& s.system_processed + self.total(hand, starts()) <= self.actors.len() + s.restarted
        &&& s.crashed == 0 ==> s.system_processed + self.total(hand, starts())
            == self.actors.len()
        &&& s.delivered + self.unsent(sizes()) + sum_of(hand, sizes()) <= 2 * self.next_mid
            + self.actors.len() + s.restarted
        &&& 0 <= s.unblocked <= s.delivered
        &&& s.blocked >= 0
        &&& s.delivered == sum_of(self.ledger, delivered_of())
        &&& s.dropped == sum_of(self.ledger, dropped_of())
        &&& s.crashed == 0 ==> s.dropped == 0
        &&& s.processed + s.system_processed == sum_of(self.ledger, consumed_of())
        &&& s.processed == sum_of(self.mid_times, itself())
        &&& s.processed + s.rejected + s.dropped + sum_of(
            self.ready.tasks(),
            apps_if_live(self.registry.entries.dom()),
        ) + self.unsent(apps()) + sum_of(hand, apps()) >= self.next_mid
    }

    /// Whether one postponed delivery lands before another.
    pub open spec fn lands_before(a: LaterView, b: LaterView) -> bool {
        a.at < b.at || (a.at == b.at && a.seq < b.seq)
    }

    /// Postponed deliveries are in the order in which they land.
    pub open spec fn timely(self) -> bool {
        &&& self.tick >= 0
        &&& forall|i: int, j: int|
            0 <= i < j < self.delayed.len() ==> World::lands_before(
                #[trigger] self.delayed[i],
                #[trigger] self.delayed[j],
            )
        &&& forall|i: int|
            0 <= i < self.delayed.len() ==> (#[trigger] self.delayed[i]).seq <= self.next_seq
        &&& self.stats.delayed >= 0
        &&& self.stats.delayed + self.delayed.len() == self.next_seq
        &&& self.next_seq <= 2 * self.next_mid
    }

    /// Whether an operation is something that a live actor does or undergoes.
    pub open spec fn concerns(op: TraceOp, o: u64) -> bool {
        match op {
            TraceOp::Spawn { ord } => ord == o,
            TraceOp::Deliver { to, .. } => to == o,
            TraceOp::Process { to, .. } => to == o,
            TraceOp::ProcessSystem { to } => to == o,
            TraceOp::Crash { to, .. } => to == o,
            TraceOp::Restart { to, .. } => to == o,
            TraceOp::Kill { to, .. } => to == o,
            _ => false,
        }
    }

    /// What the trace says of restarts and deaths is so.
    pub open spec fn op_true(self, op: TraceOp) -> bool {
        match op {
            TraceOp::Restart { to, .. } => to < self.actors.len(),
            TraceOp::Kill { to, .. } => to < self.actors.len() && !self.ledger[to as int].alive,
            _ => true,
        }
    }

    /// The trace shows every restart, and nothing of an actor after its death.
    pub open spec fn traced(self) -> bool {
        &&& forall|o: int|
            0 <= o < self.actors.len() ==> sum_of(self.trace, #[trigger] granted(o))
                == self.ledger[o].incarnation
        &&& forall|i: int| 0 <= i < self.trace.len() ==> self.op_true(#[trigger] self.trace[i])
        &&& forall|i: int, j: int|
            #![trigger self.trace[i], self.trace[j]]
            0 <= i < j < self.trace.len() ==> (self.trace[i] matches TraceOp::Kill { to, .. }
                ==> !World::concerns(self.trace[j], to))
    }

    /// All invariants.
    pub open spec fn inv(self, hand: Seq<Parcel>) -> bool {
        &&& self.sound()
        &&& self.proper(hand)
        &&& self.balanced()
        &&& self.accounted(hand)
        &&& self.counted(hand)
        &&& self.timely()
        &&& self.traced()
        &&& self.told(hand)
    }
}

} // verus!
