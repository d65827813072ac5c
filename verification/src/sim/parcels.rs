//! What is under way in a world: deliveries and queued tasks, summed up.
use crate::sim::scheduler::{can_take, lemma_pushed_sum, lemma_taken_sum, SimTaskView};
use crate::sim::world::{later_slot, DeliveryView, LaterView, World};
use crate::sums::{
    lemma_sum_insert, lemma_sum_nonneg, lemma_sum_push, lemma_sum_remove, never_negative, sum_of,
};
use crate::MessageView;
use vstd::prelude::*;

verus! {

/// A batch of messages on its way to an actor.
pub struct Parcel {
    /// Target actor ordinal.
    pub ord: u64,
    /// The messages, in order.
    pub msgs: Seq<MessageView>,
    /// Identities of the application messages.
    pub mids: Seq<u64>,
}

impl SimTaskView {
    /// The parcel that a task holds.
    pub open spec fn parcel(self) -> Parcel {
        Parcel { ord: self.ord, msgs: self.msgs, mids: self.mids }
    }
}

impl DeliveryView {
    /// The parcel that a delivery holds.
    pub open spec fn parcel(self) -> Parcel {
        Parcel { ord: self.ord, msgs: self.msgs, mids: self.mids }
    }
}

/// A term per parcel, as a term per task.
pub open spec fn on_task(f: spec_fn(Parcel) -> int) -> spec_fn(SimTaskView) -> int {
    |t: SimTaskView| f(t.parcel())
}

/// A term per parcel, as a term per parked delivery.
pub open spec fn on_delivery(f: spec_fn(Parcel) -> int) -> spec_fn(DeliveryView) -> int {
    |d: DeliveryView| f(d.parcel())
}

/// A term per parcel, as a term per postponed delivery.
pub open spec fn on_later(f: spec_fn(Parcel) -> int) -> spec_fn(LaterView) -> int {
    |l: LaterView| f(l.delivery.parcel())
}

impl World {
    /// The sum over the queued tasks.
    pub open spec fn queued_sum(self, f: spec_fn(Parcel) -> int) -> int {
        sum_of(self.ready.tasks(), on_task(f))
    }

    /// The sum over the deliveries that have not been accepted.
    pub open spec fn unsent(self, f: spec_fn(Parcel) -> int) -> int {
        sum_of(self.delayed, on_later(f)) + sum_of(self.blocked, on_delivery(f))
    }

    /// The sum over all that is under way.
    pub open spec fn pending(self, f: spec_fn(Parcel) -> int) -> int {
        self.queued_sum(f) + self.unsent(f)
    }

    /// Whether a delivery attempt is accepted.
    pub open spec fn accepts(self, d: DeliveryView) -> bool {
        !self.rejects(d) && !self.lacks_room(d)
    }
}

/// `n` when `b` holds, else zero.
pub open spec fn when(b: bool, n: int) -> int {
    if b {
        n
    } else {
        0
    }
}

/// An accepted delivery becomes a task, a parked one waits, and a rejected one
/// is gone.
pub proof fn lemma_attempt_sums(w: World, d: DeliveryView, f: spec_fn(Parcel) -> int)
    ensures
        w.attempt(d).queued_sum(f) == w.queued_sum(f) + when(w.accepts(d), f(d.parcel())),
        w.attempt(d).unsent(f) == w.unsent(f) + when(
            !w.rejects(d) && w.lacks_room(d),
            f(d.parcel()),
        ),
{
    if w.accepts(d) {
        lemma_pushed_sum(w.ready, w.task_for(d), on_task(f));
    } else if !w.rejects(d) {
        let parked = DeliveryView { was_blocked: true, ..d };
        lemma_sum_push(w.blocked, parked, on_delivery(f));
    }
}

/// The place of a postponed delivery is one of the places in the queue.
pub proof fn lemma_slot_range(delayed: Seq<LaterView>, at: int)
    ensures
        0 <= later_slot(delayed, at) <= delayed.len(),
        forall|i: int| later_slot(delayed, at) <= i < delayed.len() ==> (#[trigger] delayed[i]).at > at,
        later_slot(delayed, at) > 0 ==> delayed[later_slot(delayed, at) - 1].at <= at,
    decreases delayed.len(),
{
    if delayed.len() > 0 && delayed.last().at > at {
        let front = delayed.drop_last();
        lemma_slot_range(front, at);
        assert forall|i: int| later_slot(delayed, at) <= i < delayed.len() implies (
        #[trigger] delayed[i]).at > at by {
            if i < front.len() {
                assert(front[i] == delayed[i]);
            }
        }
    }
}

/// A postponed delivery waits.
pub proof fn lemma_postpone_sums(
    w: World,
    d: DeliveryView,
    delay: int,
    f: spec_fn(Parcel) -> int,
)
    ensures
        w.postpone(d, delay).queued_sum(f) == w.queued_sum(f),
        w.postpone(d, delay).unsent(f) == w.unsent(f) + f(d.parcel()),
{
    let later = LaterView { at: w.tick + delay, seq: w.next_seq + 1, delivery: d };
    lemma_slot_range(w.delayed, later.at);
    lemma_sum_insert(w.delayed, later_slot(w.delayed, later.at), later, on_later(f));
}

/// A postponed delivery that lands is no longer waiting.
pub proof fn lemma_landed_sums(w: World, f: spec_fn(Parcel) -> int)
    requires
        w.delayed.len() > 0,
    ensures
        w.landed().queued_sum(f) == w.queued_sum(f),
        w.landed().unsent(f) == w.unsent(f) - f(w.delayed[0].delivery.parcel()),
{
    lemma_sum_remove(w.delayed, 0, on_later(f));
    assert(w.delayed.drop_first() =~= w.delayed.remove(0));
}

/// A parked delivery that is tried again is no longer waiting.
pub proof fn lemma_unparked_sums(w: World, f: spec_fn(Parcel) -> int)
    requires
        w.blocked.len() > 0,
    ensures
        w.unparked().queued_sum(f) == w.queued_sum(f),
        w.unparked().unsent(f) == w.unsent(f) - f(w.blocked[0].parcel()),
{
    lemma_sum_remove(w.blocked, 0, on_delivery(f));
    assert(w.blocked.drop_first() =~= w.blocked.remove(0));
}

/// A chosen task is no longer queued.
pub proof fn lemma_picked_sums(w: World, f: spec_fn(Parcel) -> int)
    requires
        can_take(w.ready),
    ensures
        w.picked().queued_sum(f) == w.queued_sum(f) - f(w.next_task().parcel()),
        w.picked().unsent(f) == w.unsent(f),
{
    lemma_taken_sum(w.ready, w.config.policy, w.rng, w.tick as u64, on_task(f));
}

/// Sums of terms that are never negative are not negative.
pub proof fn lemma_pending_nonneg(w: World, f: spec_fn(Parcel) -> int)
    requires
        never_negative(f),
    ensures
        w.queued_sum(f) >= 0,
        w.unsent(f) >= 0,
        sum_of(w.delayed, on_later(f)) >= 0,
        sum_of(w.blocked, on_delivery(f)) >= 0,
{
    assert(never_negative(on_task(f)));
    assert(never_negative(on_later(f)));
    assert(never_negative(on_delivery(f)));
    lemma_sum_nonneg(w.ready.tasks(), on_task(f));
    lemma_sum_nonneg(w.delayed, on_later(f));
    lemma_sum_nonneg(w.blocked, on_delivery(f));
}

/// Smaller terms, smaller sums.
pub proof fn lemma_pending_le(w: World, f: spec_fn(Parcel) -> int, g: spec_fn(Parcel) -> int)
    requires
        forall|p: Parcel| #[trigger] f(p) <= g(p),
    ensures
        w.queued_sum(f) <= w.queued_sum(g),
        w.unsent(f) <= w.unsent(g),
{
    crate::sums::lemma_sum_le(w.ready.tasks(), on_task(f), on_task(g));
    crate::sums::lemma_sum_le(w.delayed, on_later(f), on_later(g));
    crate::sums::lemma_sum_le(w.blocked, on_delivery(f), on_delivery(g));
}

} // verus!
