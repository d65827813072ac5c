//! What the trace tells: the counters can be read off it, and every message
//! that an actor processed was sent to that actor before.
use crate::sim::parcels::{lemma_pending_le, lemma_pending_nonneg, on_task, Parcel};
use crate::sim::scheduler::SimTaskView;
use crate::sim::trace::{RejectReason, TraceOp};
use crate::sim::upkeep::lemma_attempt_total;
use crate::sim::world::{reject_ops, DeliveryView, StatsView, World};
use crate::sums::{
    lemma_sum_le, lemma_sum_nonneg, lemma_sum_push, lemma_sum_zero, never_negative,
    sum_of,
};
use vstd::prelude::*;

verus! {

/// Messages that an entry says were sent.
pub open spec fn sends() -> spec_fn(TraceOp) -> int {
    |op: TraceOp|
        match op {
            TraceOp::Send { .. } => 1,
            TraceOp::BatchSend { len, .. } => len as int,
            _ => 0,
        }
}

/// One for every rejection.
pub open spec fn rejects() -> spec_fn(TraceOp) -> int {
    |op: TraceOp| if op is Reject { 1 } else { 0 }
}

/// One for every application message processed.
pub open spec fn runs() -> spec_fn(TraceOp) -> int {
    |op: TraceOp| if op is Process { 1 } else { 0 }
}

/// One for every system message processed.
pub open spec fn system_runs() -> spec_fn(TraceOp) -> int {
    |op: TraceOp| if op is ProcessSystem { 1 } else { 0 }
}

/// One for every crash.
pub open spec fn crashes() -> spec_fn(TraceOp) -> int {
    |op: TraceOp| if op is Crash { 1 } else { 0 }
}

/// One for every restart that was granted, or for every one that was refused.
pub open spec fn answers(granted: bool) -> spec_fn(TraceOp) -> int {
    |op: TraceOp|
        match op {
            TraceOp::Restart { allowed, .. } => if allowed == granted {
                1
            } else {
                0
            },
            _ => 0,
        }
}

/// One for every permanent death.
pub open spec fn kills() -> spec_fn(TraceOp) -> int {
    |op: TraceOp| if op is Kill { 1 } else { 0 }
}

/// Mailbox copies that an entry says were lost.
pub open spec fn drops() -> spec_fn(TraceOp) -> int {
    |op: TraceOp|
        match op {
            TraceOp::Crash { dropped, .. } => dropped as int,
            TraceOp::Kill { dropped, .. } => dropped as int,
            _ => 0,
        }
}

/// Whether an entry says that the given message was sent to the given actor.
pub open spec fn sends_to(op: TraceOp, mid: u64, ord: u64) -> bool {
    match op {
        TraceOp::Send { mid: m, to } => m == mid && to == ord,
        TraceOp::BatchSend { first, len, to } => first <= mid < first + len && to == ord,
        _ => false,
    }
}

/// One for every entry that says that the given message was sent.
pub open spec fn sends_of(mid: u64) -> spec_fn(TraceOp) -> int {
    |op: TraceOp|
        match op {
            TraceOp::Send { mid: m, .. } => if m == mid {
                1
            } else {
                0
            },
            TraceOp::BatchSend { first, len, .. } => if first <= mid < first + len {
                1
            } else {
                0
            },
            _ => 0,
        }
}

/// One for every time that the given message was processed.
pub open spec fn runs_of(mid: u64) -> spec_fn(TraceOp) -> int {
    |op: TraceOp|
        match op {
            TraceOp::Process { mid: m, .. } => if m == mid {
                1
            } else {
                0
            },
            _ => 0,
        }
}

/// Whether the trace says that a message was sent to an actor.
pub open spec fn was_sent(trace: Seq<TraceOp>, mid: u64, ord: u64) -> bool {
    exists|i: int| 0 <= i < trace.len() && #[trigger] sends_to(trace[i], mid, ord)
}

/// Whether an entry, if it says that an actor processed a message, comes after
/// one that says that the message was sent to that actor.
pub open spec fn is_due_to_send(trace: Seq<TraceOp>, j: int) -> bool {
    trace[j] matches TraceOp::Process { mid, to } ==> was_sent(trace.take(j), mid, to)
}

/// One for every parcel with a message that was not sent to its actor.
pub open spec fn stray(trace: Seq<TraceOp>) -> spec_fn(Parcel) -> int {
    |p: Parcel|
        if forall|i: int| 0 <= i < p.mids.len() ==> was_sent(trace, #[trigger] p.mids[i], p.ord) {
            0
        } else {
            1
        }
}

/// Whether the counters can be read off the trace.
pub open spec fn tallied(trace: Seq<TraceOp>, s: StatsView) -> bool {
    &&& s.injected == sum_of(trace, sends())
    &&& s.rejected == sum_of(trace, rejects())
    &&& s.processed == sum_of(trace, runs())
    &&& s.system_processed == sum_of(trace, system_runs())
    &&& s.crashed == sum_of(trace, crashes())
    &&& s.restarted == sum_of(trace, answers(true))
    &&& s.escalated == sum_of(trace, answers(false))
    &&& s.dropped == sum_of(trace, drops())
}

/// Whether each message was sent once if it was injected, and not otherwise.
pub open spec fn sent_once(trace: Seq<TraceOp>, next: int) -> bool {
    forall|mid: u64| sum_of(trace, #[trigger] sends_of(mid)) == (if mid < next {
        1int
    } else {
        0
    })
}

/// Whether the trace shows each message as often as it was processed.
pub open spec fn runs_shown(trace: Seq<TraceOp>, times: Seq<int>) -> bool {
    forall|i: int|
        0 <= i < times.len() ==> sum_of(trace, runs_of(i as u64)) == #[trigger] times[i]
}

/// Whether nothing is processed that was not sent before.
pub open spec fn runs_due(trace: Seq<TraceOp>) -> bool {
    forall|j: int| 0 <= j < trace.len() ==> #[trigger] is_due_to_send(trace, j)
}

impl World {
    /// The trace tells what happened, and every parcel under way or in hand
    /// goes where its messages were sent.
    #[verifier::opaque]
    pub open spec fn told(self, hand: Seq<Parcel>) -> bool {
        &&& tallied(self.trace, self.stats)
        &&& sent_once(self.trace, self.next_mid)
        &&& runs_shown(self.trace, self.mid_times)
        &&& runs_due(self.trace)
        &&& sum_of(self.trace, kills()) == sum_of(self.trace, answers(false))
        &&& self.total(hand, stray(self.trace)) == 0
    }
}

/// The counters that the trace shows moved as an entry says.
pub open spec fn moved_by(a: StatsView, b: StatsView, op: TraceOp) -> bool {
    &&& b.injected == a.injected + sends()(op)
    &&& b.rejected == a.rejected + rejects()(op)
    &&& b.processed == a.processed + runs()(op)
    &&& b.system_processed == a.system_processed + system_runs()(op)
    &&& b.crashed == a.crashed + crashes()(op)
    &&& b.restarted == a.restarted + answers(true)(op)
    &&& b.escalated == a.escalated + answers(false)(op)
    &&& b.dropped == a.dropped + drops()(op)
}

/// The counters that the trace shows are the same.
pub open spec fn same_tally(a: StatsView, b: StatsView) -> bool {
    &&& b.injected == a.injected
    &&& b.rejected == a.rejected
    &&& b.processed == a.processed
    &&& b.system_processed == a.system_processed
    &&& b.crashed == a.crashed
    &&& b.restarted == a.restarted
    &&& b.escalated == a.escalated
    &&& b.dropped == a.dropped
}

/// What was sent stays sent.
pub proof fn lemma_was_sent_push(trace: Seq<TraceOp>, op: TraceOp, mid: u64, ord: u64)
    ensures
        was_sent(trace, mid, ord) ==> was_sent(trace.push(op), mid, ord),
        sends_to(op, mid, ord) ==> was_sent(trace.push(op), mid, ord),
{
    let longer = trace.push(op);
    if was_sent(trace, mid, ord) {
        let i = choose|i: int| 0 <= i < trace.len() && #[trigger] sends_to(trace[i], mid, ord);
        assert(longer[i] == trace[i]);
        assert(sends_to(longer[i], mid, ord));
    }
    if sends_to(op, mid, ord) {
        assert(longer[trace.len() as int] == op);
        assert(sends_to(longer[trace.len() as int], mid, ord));
    }
}

/// A longer trace leaves no more parcels astray.
proof fn lemma_stray_push(trace: Seq<TraceOp>, op: TraceOp, p: Parcel)
    ensures
        stray(trace.push(op))(p) <= stray(trace)(p),
{
    if stray(trace)(p) == 0 {
        assert forall|i: int| 0 <= i < p.mids.len() implies was_sent(
            trace.push(op),
            #[trigger] p.mids[i],
            p.ord,
        ) by {
            assert(was_sent(trace, p.mids[i], p.ord));
            lemma_was_sent_push(trace, op, p.mids[i], p.ord);
        }
    }
}

/// The sum over what is under way or in hand is not negative.
proof fn lemma_total_nonneg(w: World, hand: Seq<Parcel>, f: spec_fn(Parcel) -> int)
    requires
        never_negative(f),
    ensures
        w.total(hand, f) >= 0,
{
    lemma_pending_nonneg(w, f);
    lemma_sum_nonneg(hand, f);
}

/// An entry that says what the counters say keeps the trace telling.
proof fn lemma_story_push(w: World, v: World, op: TraceOp)
    requires
        tallied(w.trace, w.stats),
        sent_once(w.trace, w.next_mid),
        runs_shown(w.trace, w.mid_times),
        runs_due(w.trace),
        v.trace == w.trace.push(op),
        moved_by(w.stats, v.stats, op),
        forall|mid: u64|
            (if mid < v.next_mid {
                1int
            } else {
                0
            }) == (if mid < w.next_mid {
                1int
            } else {
                0
            }) + #[trigger] sends_of(mid)(op),
        v.mid_times.len() == w.mid_times.len(),
        forall|i: int|
            0 <= i < w.mid_times.len() ==> #[trigger] v.mid_times[i] == w.mid_times[i] + runs_of(
                i as u64,
            )(op),
        op matches TraceOp::Process { mid, to } ==> was_sent(w.trace, mid, to),
    ensures
        tallied(v.trace, v.stats),
        sent_once(v.trace, v.next_mid),
        runs_shown(v.trace, v.mid_times),
        runs_due(v.trace),
{
    lemma_story_grows(w.trace, op);
    assert forall|mid: u64| sum_of(v.trace, #[trigger] sends_of(mid)) == (if mid < v.next_mid {
        1int
    } else {
        0
    }) by {
        lemma_sum_push(w.trace, op, sends_of(mid));
        assert(sum_of(w.trace, sends_of(mid)) + sends_of(mid)(op) == sum_of(
            v.trace,
            sends_of(mid),
        ));
    }
    assert forall|i: int| 0 <= i < v.mid_times.len() implies sum_of(v.trace, runs_of(i as u64))
        == #[trigger] v.mid_times[i] by {
        lemma_sum_push(w.trace, op, runs_of(i as u64));
        assert(sum_of(w.trace, runs_of(i as u64)) == w.mid_times[i]);
    }
    lemma_tally_push(w.trace, op);
}

/// A new entry leaves the earlier ones due to what they were due to.
proof fn lemma_story_grows(trace: Seq<TraceOp>, op: TraceOp)
    requires
        runs_due(trace),
        op matches TraceOp::Process { mid, to } ==> was_sent(trace, mid, to),
    ensures
        runs_due(trace.push(op)),
{
    let longer = trace.push(op);
    assert forall|j: int| 0 <= j < longer.len() implies #[trigger] is_due_to_send(longer, j) by {
        if j < trace.len() {
            assert(is_due_to_send(trace, j));
            assert(longer.take(j) =~= trace.take(j));
        } else {
            assert(longer.take(j) =~= trace);
        }
    }
}

/// A new entry adds its terms.
proof fn lemma_tally_push(trace: Seq<TraceOp>, op: TraceOp)
    ensures
        sum_of(trace.push(op), sends()) == sum_of(trace, sends()) + sends()(op),
        sum_of(trace.push(op), rejects()) == sum_of(trace, rejects()) + rejects()(op),
        sum_of(trace.push(op), runs()) == sum_of(trace, runs()) + runs()(op),
        sum_of(trace.push(op), system_runs()) == sum_of(trace, system_runs()) + system_runs()(op),
        sum_of(trace.push(op), crashes()) == sum_of(trace, crashes()) + crashes()(op),
        sum_of(trace.push(op), answers(true)) == sum_of(trace, answers(true)) + answers(true)(op),
        sum_of(trace.push(op), answers(false)) == sum_of(trace, answers(false)) + answers(false)(
            op,
        ),
        sum_of(trace.push(op), kills()) == sum_of(trace, kills()) + kills()(op),
        sum_of(trace.push(op), drops()) == sum_of(trace, drops()) + drops()(op),
{
    lemma_sum_push(trace, op, sends());
    lemma_sum_push(trace, op, rejects());
    lemma_sum_push(trace, op, runs());
    lemma_sum_push(trace, op, system_runs());
    lemma_sum_push(trace, op, crashes());
    lemma_sum_push(trace, op, answers(true));
    lemma_sum_push(trace, op, answers(false));
    lemma_sum_push(trace, op, kills());
    lemma_sum_push(trace, op, drops());
}

/// When the trace stays as it was and no parcel is added, it still tells.
pub proof fn lemma_told_same(w: World, v: World, before: Seq<Parcel>, after: Seq<Parcel>)
    requires
        w.told(before),
        v.trace == w.trace,
        same_tally(w.stats, v.stats),
        v.next_mid == w.next_mid,
        v.mid_times == w.mid_times,
        v.total(after, stray(w.trace)) <= w.total(before, stray(w.trace)),
    ensures
        v.told(after),
{
    reveal(World::told);
    lemma_total_nonneg(v, after, stray(w.trace));
}

/// When an entry is added that says what happened, the trace still tells.
pub proof fn lemma_told_push(
    w: World,
    v: World,
    op: TraceOp,
    before: Seq<Parcel>,
    after: Seq<Parcel>,
)
    requires
        w.told(before),
        v.trace == w.trace.push(op),
        moved_by(w.stats, v.stats, op),
        answers(false)(op) == 0,
        kills()(op) == 0,
        !(op is Send) && !(op is BatchSend),
        v.next_mid == w.next_mid,
        v.mid_times.len() == w.mid_times.len(),
        forall|i: int|
            0 <= i < w.mid_times.len() ==> #[trigger] v.mid_times[i] == w.mid_times[i] + runs_of(
                i as u64,
            )(op),
        op matches TraceOp::Process { mid, to } ==> was_sent(w.trace, mid, to),
        v.total(after, stray(w.trace)) <= w.total(before, stray(w.trace)),
    ensures
        v.told(after),
{
    reveal(World::told);
    lemma_story_push(w, v, op);
    lemma_tally_push(w.trace, op);
    lemma_stray_grown(v, after, w.trace, op);
}

/// A longer trace leaves no more parcels astray.
proof fn lemma_stray_grown(v: World, hand: Seq<Parcel>, trace: Seq<TraceOp>, op: TraceOp)
    ensures
        0 <= v.total(hand, stray(trace.push(op))) <= v.total(hand, stray(trace)),
{
    let f = stray(trace.push(op));
    let g = stray(trace);
    assert forall|p: Parcel| #[trigger] f(p) <= g(p) by {
        lemma_stray_push(trace, op, p);
    }
    lemma_pending_le(v, f, g);
    lemma_sum_le(hand, f, g);
    lemma_total_nonneg(v, hand, f);
}

/// Rejections are told.
pub proof fn lemma_told_reject(
    w: World,
    mids: Seq<u64>,
    to: u64,
    reason: RejectReason,
    hand: Seq<Parcel>,
)
    requires
        w.told(hand),
    ensures
        w.reject(mids, to, reason).told(hand),
    decreases mids.len(),
{
    let v = w.reject(mids, to, reason);
    if mids.len() == 0 {
        assert(w.trace + reject_ops(mids, to, reason) =~= w.trace);
        lemma_told_same(w, v, hand, hand);
    } else {
        let front = mids.drop_last();
        let u = w.reject(front, to, reason);
        let op = TraceOp::Reject { mid: mids.last(), to, reason };
        lemma_told_reject(w, front, to, reason, hand);
        assert(reject_ops(mids, to, reason) =~= reject_ops(front, to, reason).push(op));
        assert(v.trace =~= u.trace.push(op));
        lemma_told_push(u, v, op, hand, hand);
    }
}

/// A parcel can be let go of.
pub proof fn lemma_told_less(w: World, rest: Seq<Parcel>, p: Parcel)
    requires
        w.told(rest.push(p)),
    ensures
        w.told(rest),
{
    lemma_sum_push(rest, p, stray(w.trace));
    lemma_told_same(w, w, rest.push(p), rest);
}

/// A delivery attempt is told.
pub proof fn lemma_attempt_told(w: World, d: DeliveryView, rest: Seq<Parcel>)
    requires
        w.told(rest.push(d.parcel())),
    ensures
        w.attempt(d).told(rest),
{
    let p = d.parcel();
    let hand = rest.push(p);
    let v = w.attempt(d);
    if w.rejects(d) {
        lemma_told_reject(w, d.mids, d.ord, RejectReason::DeadTarget, hand);
        lemma_told_less(v, rest, p);
    } else {
        lemma_attempt_total(w, d, rest, stray(w.trace));
        if v.trace == w.trace {
            lemma_told_same(w, v, hand, rest);
        } else {
            lemma_told_push(w, v, v.trace.last(), hand, rest);
        }
    }
}

/// A queued task goes where its messages were sent.
pub proof fn lemma_task_told(w: World, t: SimTaskView)
    requires
        w.told(Seq::empty()),
        w.ready.tasks().contains(t),
    ensures
        forall|i: int| 0 <= i < t.mids.len() ==> was_sent(w.trace, #[trigger] t.mids[i], t.ord),
{
    reveal(World::told);
    let f = stray(w.trace);
    let tasks = w.ready.tasks();
    let k = tasks.index_of(t);
    lemma_pending_nonneg(w, f);
    assert(never_negative(on_task(f)));
    lemma_sum_nonneg(tasks, on_task(f));
    assert(on_task(f)(tasks[k]) <= 0);
    assert(f(t.parcel()) == 0);
    assert forall|i: int| 0 <= i < t.mids.len() implies was_sent(
        w.trace,
        #[trigger] t.mids[i],
        t.ord,
    ) by {
        assert(was_sent(w.trace, t.parcel().mids[i], t.parcel().ord));
    }
}

/// Announcing an event is told, its copies being in hand.
pub proof fn lemma_announced_told(
    w: World,
    v: World,
    first: u64,
    len: u64,
    to: u64,
    hand: Seq<Parcel>,
)
    requires
        w.told(Seq::empty()),
        w.next_mid == first,
        first + len <= u64::MAX,
        len > 0,
        v.next_mid == first + len,
        v.trace == w.trace.push(
            if len > 1 {
                TraceOp::BatchSend { first, len, to }
            } else {
                TraceOp::Send { mid: first, to }
            },
        ),
        v.stats.injected == w.stats.injected + len,
        same_tally(StatsView { injected: v.stats.injected, ..w.stats }, v.stats),
        v.mid_times == w.mid_times,
        forall|f: spec_fn(Parcel) -> int| #[trigger] v.pending(f) == w.pending(f),
        forall|k: int| 0 <= k < hand.len() ==> {
            let p = #[trigger] hand[k];
            &&& p.ord == to
            &&& forall|i: int| 0 <= i < p.mids.len() ==> first <= #[trigger] p.mids[i] < first + len
        },
    ensures
        v.told(hand),
{
    reveal(World::told);
    let op = v.trace.last();
    lemma_story_push(w, v, op);
    lemma_tally_push(w.trace, op);
    let none = Seq::<Parcel>::empty();
    let f = stray(v.trace);
    lemma_stray_grown(w, none, w.trace, op);
    assert(w.pending(f) == 0);
    assert(v.pending(f) == w.pending(f));
    assert forall|k: int| 0 <= k < hand.len() implies #[trigger] f(hand[k]) == 0 by {
        let p = hand[k];
        assert forall|i: int| 0 <= i < p.mids.len() implies was_sent(
            v.trace,
            #[trigger] p.mids[i],
            p.ord,
        ) by {
            assert(first <= p.mids[i] < first + len);
            assert(sends_to(op, p.mids[i], p.ord));
            lemma_was_sent_push(w.trace, op, p.mids[i], p.ord);
        }
    }
    lemma_sum_zero(hand, f);
}

/// A crash that is answered with a restart is told, and so is a new
/// incarnation.
pub proof fn lemma_restart_told(w: World, v: World, to: u64, dropped: u64, hand: Seq<Parcel>)
    requires
        w.told(Seq::empty()),
        v.trace == w.trace.push(TraceOp::Crash { to, dropped }).push(
            TraceOp::Restart { to, allowed: true },
        ).push(TraceOp::Spawn { ord: to }),
        same_tally(
            StatsView {
                crashed: w.stats.crashed + 1,
                restarted: w.stats.restarted + 1,
                dropped: w.stats.dropped + dropped,
                ..w.stats
            },
            v.stats,
        ),
        v.next_mid == w.next_mid,
        v.mid_times == w.mid_times,
        v.total(hand, stray(w.trace)) <= w.total(Seq::empty(), stray(w.trace)),
    ensures
        v.told(hand),
{
    let none = Seq::<Parcel>::empty();
    let a = TraceOp::Crash { to, dropped };
    let b = TraceOp::Restart { to, allowed: true };
    let c = TraceOp::Spawn { ord: to };
    let x = World {
        trace: w.trace.push(a),
        stats: StatsView {
            crashed: w.stats.crashed + 1,
            dropped: w.stats.dropped + dropped,
            ..w.stats
        },
        ..v
    };
    let y = World {
        trace: x.trace.push(b),
        stats: StatsView { restarted: x.stats.restarted + 1, ..x.stats },
        ..v
    };
    assert(x.total(hand, stray(w.trace)) == v.total(hand, stray(w.trace)));
    lemma_told_push(w, x, a, none, hand);
    assert(y.total(hand, stray(x.trace)) == x.total(hand, stray(x.trace)));
    lemma_told_push(x, y, b, hand, hand);
    assert(v.total(hand, stray(y.trace)) == y.total(hand, stray(y.trace)));
    lemma_told_push(y, v, c, hand, hand);
}

/// A crash that is answered with an escalation is told.
pub proof fn lemma_death_told(w: World, v: World, to: u64, dropped: u64)
    requires
        w.told(Seq::empty()),
        v.trace == w.trace.push(TraceOp::Crash { to, dropped }).push(
            TraceOp::Restart { to, allowed: false },
        ).push(TraceOp::Kill { to, dropped: 0 }),
        same_tally(
            StatsView {
                crashed: w.stats.crashed + 1,
                escalated: w.stats.escalated + 1,
                dropped: w.stats.dropped + dropped,
                ..w.stats
            },
            v.stats,
        ),
        v.next_mid == w.next_mid,
        v.mid_times == w.mid_times,
        v.total(Seq::empty(), stray(w.trace)) <= w.total(Seq::empty(), stray(w.trace)),
    ensures
        v.told(Seq::empty()),
{
    let none = Seq::<Parcel>::empty();
    let a = TraceOp::Crash { to, dropped };
    let b = TraceOp::Restart { to, allowed: false };
    let c = TraceOp::Kill { to, dropped: 0 };
    let x = World {
        trace: w.trace.push(a),
        stats: StatsView {
            crashed: w.stats.crashed + 1,
            dropped: w.stats.dropped + dropped,
            ..w.stats
        },
        ..v
    };
    let y = World { trace: x.trace.push(b), stats: v.stats, ..v };
    assert(x.total(none, stray(w.trace)) == v.total(none, stray(w.trace)));
    lemma_told_push(w, x, a, none, none);
    reveal(World::told);
    lemma_story_push(x, y, b);
    lemma_tally_push(x.trace, b);
    lemma_story_push(y, v, c);
    lemma_tally_push(y.trace, c);
    lemma_stray_grown(v, none, x.trace, b);
    lemma_stray_grown(v, none, y.trace, c);
    assert(v.total(none, stray(x.trace)) == x.total(none, stray(x.trace)));
}

} // verus!
