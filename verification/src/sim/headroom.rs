//! When a simulation can be run: counters and ticks have room, and the audits
//! pass.
use crate::sim::config::SimConfig;
use crate::sim::crashes::can_restart;
use crate::sim::laws::{law_counts_ok, law_identities_ok, lemma_limits_kept};
use crate::sim::parcels::lemma_pending_nonneg;
use crate::sim::rounds::{
    can_run, lemma_deliver_due_inv, lemma_inject_frame, lemma_parked_bound, lemma_retry_times_inv,
    lemma_round_inv, lemma_run_inv, lemma_step_inv, parking_limit,
};
use crate::sim::soundness::apps;
use crate::sim::upkeep::lemma_advanced_inv;
use crate::sim::workload::lemma_inject_workload_inv;
use crate::sim::world::{longest_delay, World};
use crate::sim::{counts_ok, identities_ok};
use vstd::prelude::*;

verus! {

/// Whether a configuration can drive a run: the events of a tick can be
/// counted.
pub open spec fn can_drive(config: SimConfig) -> bool {
    config.injection_rate.fraction is Never || config.injection_rate.whole < u64::MAX
}

/// Whether deliveries postponed in the next `n` ticks land at ticks that can
/// be counted.
pub open spec fn has_time(w: World, n: int) -> bool {
    w.tick + n + longest_delay(w.config.faults) <= u64::MAX
}

/// Whether the deliveries parked in the next `n` rounds can be counted.
pub open spec fn has_parking(w: World, n: int) -> bool {
    w.stats.blocked + n * parking_limit(w) <= u64::MAX
}

/// Whether the limits in the configuration are those that the world was run
/// under: the restart limit is no lower than the supervisor's, and nothing was
/// duplicated where nothing may be. Audits then pass, whatever happens.
pub open spec fn limits_agree(w: World) -> bool {
    &&& w.config.max_restarts == 0 || 0 < w.supervisor.max_restarts <= w.config.max_restarts
    &&& w.config.faults.duplicate_prob is Never ==> w.stats.duplicates == 0
}

/// Whether the audits of a run of up to `n` rounds pass: the counts after
/// every round, and the identities at quiescence.
pub open spec fn audits_pass(w: World, n: nat) -> bool {
    &&& forall|k: nat| 1 <= k <= w.rounds(n) ==> counts_ok(#[trigger] w.run(k))
    &&& w.run(n).quiescent() ==> identities_ok(w.run(n))
}

/// Whether a round can be run.
pub open spec fn can_round(w: World) -> bool {
    &&& can_run(w)
    &&& can_drive(w.config)
    &&& has_time(w, 1)
    &&& has_parking(w, 1)
}

/// Whether up to `n` rounds can be run: no counter or tick runs over in the
/// rounds that it takes, and the audits pass. Both are so where there is room
/// for `n` rounds and the limits agree.
pub open spec fn can_run_for(w: World, n: nat) -> bool {
    &&& can_run(w)
    &&& can_drive(w.config)
    &&& has_time(w, n as int) || has_time(w, w.rounds(n) as int)
    &&& has_parking(w, n as int) || has_parking(w, w.rounds(n) as int)
    &&& limits_agree(w) || audits_pass(w, n)
}

/// Whether there is room for `n` rounds and the limits agree.
pub open spec fn has_room_for(w: World, n: nat) -> bool {
    &&& can_run(w)
    &&& can_drive(w.config)
    &&& has_time(w, n as int)
    &&& has_parking(w, n as int)
    &&& limits_agree(w)
}

/// Whether no counter or tick runs over in the rounds that running up to `n`
/// of them takes, and the audits pass.
pub open spec fn is_clear_ahead(w: World, n: nat) -> bool {
    &&& can_run(w)
    &&& can_drive(w.config)
    &&& has_time(w, w.rounds(n) as int)
    &&& has_parking(w, w.rounds(n) as int)
    &&& audits_pass(w, n)
}

/// Where the limits agree they still do after a run.
proof fn lemma_limits_last(w: World, n: nat)
    requires
        w.inv(Seq::empty()),
        can_run(w),
        limits_agree(w),
    ensures
        limits_agree(w.run(n)),
    decreases n,
{
    if n > 0 && !w.quiescent() {
        lemma_round_inv(w);
        lemma_limits_kept(w);
        lemma_limits_last(w.round(), (n - 1) as nat);
    }
}

/// Where the limits agree the audits pass, whatever happens.
pub proof fn law_audits_pass(w: World, n: nat)
    requires
        w.inv(Seq::empty()),
        can_run(w),
        limits_agree(w),
    ensures
        audits_pass(w, n),
{
    assert forall|k: nat| 1 <= k <= w.rounds(n) implies counts_ok(#[trigger] w.run(k)) by {
        lemma_run_inv(w, k);
        lemma_limits_last(w, k);
        law_counts_ok(w.run(k));
    }
    if w.run(n).quiescent() {
        lemma_run_inv(w, n);
        lemma_limits_last(w, n);
        law_identities_ok(w.run(n));
    }
}

/// A run that can be run is clear ahead.
pub proof fn lemma_ahead(w: World, n: nat)
    requires
        w.inv(Seq::empty()),
        can_run_for(w, n),
    ensures
        is_clear_ahead(w, n),
{
    lemma_run_inv(w, n);
    let a = w.rounds(n) as int;
    let b = n as int;
    let k = parking_limit(w);
    assert(a * k <= b * k) by (nonlinear_arith)
        requires
            a <= b,
            k >= 0,
    ;
    if limits_agree(w) {
        law_audits_pass(w, n);
    }
}

/// After a round the rest is clear ahead.
pub proof fn lemma_one_round(w: World, n: nat)
    requires
        w.inv(Seq::empty()),
        is_clear_ahead(w, n),
        n > 0,
        !w.quiescent(),
    ensures
        can_round(w),
        is_clear_ahead(w.round(), (n - 1) as nat),
        w.run(n) == w.round().run((n - 1) as nat),
        w.rounds(n) == 1 + w.round().rounds((n - 1) as nat),
        w.round().seed == w.seed,
        counts_ok(w.round()),
{
    let m = (n - 1) as nat;
    let v = w.round();
    let k = parking_limit(w);
    let r = v.rounds(m) as int;
    lemma_round_inv(w);
    assert((1 + r) * k == k + r * k) by (nonlinear_arith);
    assert(r * k >= 0) by (nonlinear_arith)
        requires
            r >= 0,
            k >= 0,
    ;
    assert(w.rounds(n) == 1 + v.rounds(m));
    assert(w.run(1) == v.run(0));
    assert(counts_ok(w.run(1)));
    assert forall|j: nat| 1 <= j <= v.rounds(m) implies counts_ok(#[trigger] v.run(j)) by {
        assert(w.run(j + 1) == v.run(j));
        assert(counts_ok(w.run(j + 1)));
    }
}

/// At rest, the audit of the identities passes.
pub proof fn lemma_at_rest(w: World, n: nat)
    requires
        is_clear_ahead(w, n),
        n == 0 || w.quiescent(),
    ensures
        w.run(n) == w,
        w.rounds(n) == 0,
        w.quiescent() ==> identities_ok(w),
{
}

/// Whether tasks can be chosen and processed.
pub open spec fn can_step(w: World) -> bool {
    &&& can_restart(w)
    &&& w.stats.blocked + 2 * w.next_mid - w.stats.crashed <= u64::MAX
}

/// The parts of a round have room.
pub proof fn lemma_round_parts(w: World)
    requires
        w.inv(Seq::empty()),
        can_round(w),
    ensures
        ({
            let a = w.advanced();
            let b = a.inject_workload();
            let c = b.deliver_due();
            let d = c.retry_blocked();
            &&& a.inv(Seq::empty())
            &&& can_drive(a.config)
            &&& has_time(a, 0)
            &&& a.actors.len() > 0 || a.next_mid >= a.budget()
            &&& a.stats.blocked + a.budget() - a.next_mid <= u64::MAX
            &&& b.stats.blocked + b.delayed.len() <= u64::MAX
            &&& c.stats.blocked + c.blocked.len() <= u64::MAX
            &&& d.config == w.config
            &&& can_step(d)
            &&& d.step_times(d.config.processing_per_tick as nat) == w.round()
        }),
{
    let a = w.advanced();
    let b = a.inject_workload();
    let c = b.deliver_due();
    lemma_advanced_inv(w);
    lemma_inject_workload_inv(a);
    lemma_inject_frame(a);
    lemma_deliver_due_inv(b);
    lemma_retry_times_inv(c, c.retries());
    lemma_parked_bound(c);
    lemma_pending_nonneg(b, apps());
    lemma_pending_nonneg(c, apps());
}

/// One more task can be chosen and processed.
pub proof fn lemma_one_step(w: World, n: nat)
    requires
        w.inv(Seq::empty()),
        can_step(w),
        n > 0,
    ensures
        w.ready.is_clear() ==> w.step_times(n) == w,
        !w.ready.is_clear() ==> can_step(w.step()) && w.step_times(n) == w.step().step_times(
            (n - 1) as nat,
        ),
{
    if !w.ready.is_clear() {
        lemma_step_inv(w);
    }
}

} // verus!
