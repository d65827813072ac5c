//! Seeded fault injection for deterministic simulation.
//!
//! Every fault decision is a draw from the simulation's single seeded stream
//! ([`SimRng`]), taken in a fixed program order, so the fault schedule is a
//! function of the seed.
//!
//! | Fault | Effect |
//! |---|---|
//! | `crash_prob` | the target actor crashes mid-message |
//! | `send_reject_prob` | the transport rejects the send before delivery |
//! | `delay_prob` | delivery postponed by `delay_ticks_min..=delay_ticks_max` ticks |
//! | `duplicate_prob` | the message is delivered a second time later |
//!
//! System messages (`Start`) are exempt.
use rand_xoshiro::rand_core::{Rng, SeedableRng};
use rand_xoshiro::Xoshiro256PlusPlus;
use vstd::prelude::*;

verus! {

/// The number of equally likely outcomes of one fraction draw, `2^53`.
pub const FRACTION_STEPS: u64 = 9_007_199_254_740_992;

/// The probability of an event, as a threshold on a fraction draw.
///
/// A draw is a whole number `k` below [`FRACTION_STEPS`], standing for
/// `k / 2^53`. Comparing it with a floating-point probability `p` is
/// comparing it with the least whole number at or above `p * 2^53`.
#[derive(Debug, Clone, Copy, PartialEq, Eq, Structural)]
pub enum Probability {
    /// The event cannot happen, and deciding so takes no draw.
    Never,
    /// One draw is taken; the event happens when it is below the threshold.
    Below(u64),
}

/// Fault probabilities for a simulation run.
///
/// The default injects nothing. [`FaultConfig::chaos`] turns every fault on.
#[derive(Debug, Clone, Copy)]
pub struct FaultConfig {
    /// Probability that an application send is rejected by the transport.
    pub send_reject_prob: Probability,
    /// Probability that a delivery is delayed.
    pub delay_prob: Probability,
    /// Minimum delay in ticks.
    pub delay_ticks_min: u64,
    /// Maximum delay in ticks (inclusive).
    pub delay_ticks_max: u64,
    /// Probability that a message is duplicated by the transport.
    pub duplicate_prob: Probability,
    /// Probability that processing an application message crashes the actor.
    pub crash_prob: Probability,
}

impl Default for FaultConfig {
    fn default() -> (r: Self)
        ensures
            r == FaultConfig::none(),
    {
        FaultConfig {
            send_reject_prob: Probability::Never,
            delay_prob: Probability::Never,
            delay_ticks_min: 1,
            delay_ticks_max: 8,
            duplicate_prob: Probability::Never,
            crash_prob: Probability::Never,
        }
    }
}

/// Threshold of probability 0.01.
pub const ONE_PERCENT: u64 = 90_071_992_547_410;

/// Threshold of probability 0.02.
pub const TWO_PERCENT: u64 = 180_143_985_094_820;

/// Threshold of probability 0.05.
pub const FIVE_PERCENT: u64 = 450_359_962_737_050;

impl FaultConfig {
    /// No faults, and delays of one to eight ticks should they be turned on.
    pub open spec fn none() -> FaultConfig {
        FaultConfig {
            send_reject_prob: Probability::Never,
            delay_prob: Probability::Never,
            delay_ticks_min: 1,
            delay_ticks_max: 8,
            duplicate_prob: Probability::Never,
            crash_prob: Probability::Never,
        }
    }

    /// All-faults-on baseline with the given per-message crash rate.
    pub fn chaos(crash_prob: Probability) -> (r: Self)
        ensures
            r.send_reject_prob == Probability::Below(ONE_PERCENT),
            r.delay_prob == Probability::Below(FIVE_PERCENT),
            r.delay_ticks_min == 1,
            r.delay_ticks_max == 8,
            r.duplicate_prob == Probability::Below(TWO_PERCENT),
            r.crash_prob == crash_prob,
    {
        FaultConfig {
            send_reject_prob: Probability::Below(ONE_PERCENT),
            delay_prob: Probability::Below(FIVE_PERCENT),
            delay_ticks_min: 1,
            delay_ticks_max: 8,
            duplicate_prob: Probability::Below(TWO_PERCENT),
            crash_prob,
        }
    }

    /// Whether no faults are configured.
    pub open spec fn fault_free(self) -> bool {
        &&& self.send_reject_prob is Never
        &&& self.delay_prob is Never
        &&& self.duplicate_prob is Never
        &&& self.crash_prob is Never
    }

    /// True when no faults are configured (exactly-once mode).
    pub fn is_fault_free(&self) -> (r: bool)
        ensures
            r == self.fault_free(),
    {
        self.send_reject_prob == Probability::Never && self.delay_prob == Probability::Never
            && self.duplicate_prob == Probability::Never && self.crash_prob == Probability::Never
    }
}

/// The state of a `Xoshiro256PlusPlus` seeded with `seed`, as its `state`
/// method reports it.
pub uninterp spec fn xoshiro_seeded(seed: u64) -> Seq<u8>;

/// What `next_u64` does on a `Xoshiro256PlusPlus` made from `state`: the word
/// it returns, and the state that it leaves.
pub uninterp spec fn xoshiro_drawn(state: Seq<u8>) -> (u64, Seq<u8>);

/// Calls `Xoshiro256PlusPlus::seed_from_u64` and reads the generator's state.
/// The state is claimed to depend on the seed alone.
#[verifier::external_body]
fn seed_state(seed: u64) -> (r: [u8; 32])
    ensures
        r@ == xoshiro_seeded(seed),
{
    Xoshiro256PlusPlus::seed_from_u64(seed).state()
}

/// Calls `next_u64` on the `Xoshiro256PlusPlus` with the given state. The word
/// returned and the state left are claimed to depend on that state alone.
#[verifier::external_body]
fn draw_word(state: [u8; 32]) -> (r: (u64, [u8; 32]))
    ensures
        (r.0, r.1@) == xoshiro_drawn(state@),
{
    let mut inner = Xoshiro256PlusPlus::from_seed(state);
    let word = inner.next_u64();
    (word, inner.state())
}

/// The word that a stream in `state` yields next.
pub open spec fn word(state: Seq<u8>) -> u64 {
    xoshiro_drawn(state).0
}

/// The state of a stream after its next word was taken.
pub open spec fn after_word(state: Seq<u8>) -> Seq<u8> {
    xoshiro_drawn(state).1
}

/// `w` scaled from `[0, 2^64)` to `[0, n)`.
pub open spec fn scaled(w: u64, n: int) -> u64 {
    ((w as int * n) / 0x1_0000_0000_0000_0000) as u64
}

/// The 53 high bits of a word.
pub open spec fn fraction(w: u64) -> u64 {
    (w as int / 2048) as u64
}

/// Whether an event of probability `p` happens for a stream in `state`.
pub open spec fn rolled(state: Seq<u8>, p: Probability) -> bool {
    match p {
        Probability::Never => false,
        Probability::Below(threshold) => fraction(word(state)) < threshold,
    }
}

/// The state of a stream after an event of probability `p` was decided.
pub open spec fn after_roll(state: Seq<u8>, p: Probability) -> Seq<u8> {
    match p {
        Probability::Never => state,
        Probability::Below(_) => after_word(state),
    }
}

/// The value drawn from `lo..=hi` for a stream in `state`.
pub open spec fn ranged(state: Seq<u8>, lo: u64, hi: u64) -> u64 {
    if hi <= lo {
        lo
    } else {
        (lo + scaled(word(state), hi - lo + 1)) as u64
    }
}

/// The state of a stream after a draw from `lo..=hi`.
pub open spec fn after_range(state: Seq<u8>, lo: u64, hi: u64) -> Seq<u8> {
    if hi <= lo {
        state
    } else {
        after_word(state)
    }
}

/// A scaled word lies below the bound it was scaled to.
pub proof fn lemma_scaled_below(w: u64, n: int)
    requires
        0 < n <= 0x1_0000_0000_0000_0000,
    ensures
        scaled(w, n) < n,
        scaled(w, n) == (w as int * n) / 0x1_0000_0000_0000_0000,
{
    let base: int = 0x1_0000_0000_0000_0000;
    let x: int = w as int;
    let y: int = n;
    assert(0 <= x * y < base * y) by (nonlinear_arith)
        requires
            0 <= x < base,
            0 < y,
    ;
    assert(0 <= (x * y) / base < y) by (nonlinear_arith)
        requires
            0 <= x * y < base * y,
            base == 0x1_0000_0000_0000_0000int,
    ;
}

/// A draw from `lo..=hi` lies in that range, and is `lo` when the range is
/// empty.
pub proof fn lemma_ranged_within(state: Seq<u8>, lo: u64, hi: u64)
    ensures
        hi <= lo ==> ranged(state, lo, hi) == lo,
        lo < hi ==> lo <= ranged(state, lo, hi) <= hi,
        lo < hi ==> ranged(state, lo, hi) == lo + scaled(word(state), hi - lo + 1),
{
    if lo < hi {
        lemma_scaled_below(word(state), hi - lo + 1);
    }
}

/// The simulation's single seeded stream.
///
/// Everything that the real runtime leaves open (which task runs next, whether
/// a fault fires, what the workload does) is drawn from this one xoshiro256++
/// stream in a fixed program order.
#[derive(Clone, Copy)]
pub struct SimRng {
    state: [u8; 32],
}

impl View for SimRng {
    type V = Seq<u8>;

    closed spec fn view(&self) -> Seq<u8> {
        self.state@
    }
}

impl SimRng {
    /// Seed the stream.
    pub fn new(seed: u64) -> (r: Self)
        ensures
            r@ == xoshiro_seeded(seed),
    {
        SimRng { state: seed_state(seed) }
    }

    /// Next raw `u64`.
    pub fn next_u64(&mut self) -> (r: u64)
        ensures
            r == word(old(self)@),
            final(self)@ == after_word(old(self)@),
    {
        let (w, state) = draw_word(self.state);
        self.state = state;
        w
    }

    /// Uniform whole number below [`FRACTION_STEPS`]: the numerator, over
    /// `2^53`, of a uniform number in `[0, 1)`.
    pub fn next_fraction(&mut self) -> (r: u64)
        ensures
            r == fraction(word(old(self)@)),
            r < FRACTION_STEPS,
            final(self)@ == after_word(old(self)@),
    {
        let w: u64 = self.next_u64();
        w / 2048
    }

    /// Uniform `u64` in `[0, n)`.
    pub fn below(&mut self, n: u64) -> (r: u64)
        requires
            n > 0,
        ensures
            r == scaled(word(old(self)@), n as int),
            r < n,
            final(self)@ == after_word(old(self)@),
    {
        let w: u64 = self.next_u64();
        proof {
            lemma_scaled_below(w, n as int);
            assert(w as int * n as int <= u128::MAX) by (nonlinear_arith)
                requires
                    w <= u64::MAX,
                    n <= u64::MAX,
            ;
        }
        let wide: u128 = (w as u128 * n as u128) / 0x1_0000_0000_0000_0000;
        wide as u64
    }

    /// Uniform `u64` in `[lo, hi]` (inclusive), `lo` without a draw when there
    /// is no other.
    pub fn range(&mut self, lo: u64, hi: u64) -> (r: u64)
        ensures
            r == ranged(old(self)@, lo, hi),
            lo <= hi ==> lo <= r <= hi,
            hi <= lo ==> r == lo,
            final(self)@ == after_range(old(self)@, lo, hi),
    {
        if hi <= lo {
            return lo;
        }
        let width: u64 = hi - lo;
        if width == u64::MAX {
            return self.next_u64();
        }
        lo + self.below(width + 1)
    }

    /// Decide an event of probability `p`. Deciding an event that cannot
    /// happen takes no draw.
    pub fn roll(&mut self, p: Probability) -> (r: bool)
        ensures
            r == rolled(old(self)@, p),
            final(self)@ == after_roll(old(self)@, p),
    {
        match p {
            Probability::Never => false,
            Probability::Below(threshold) => self.next_fraction() < threshold,
        }
    }
}

/// For every bound and every value below it there is a word that scaling
/// brings to that value.
pub proof fn lemma_word_for(n: int, a: int) -> (w: u64)
    requires
        0 <= a < n <= 0x1_0000_0000_0000_0000,
    ensures
        (w as int * n) / 0x1_0000_0000_0000_0000 == a,
{
    let base: int = 0x1_0000_0000_0000_0000;
    let top: int = a * base + n - 1;
    let x: int = top / n;
    assert(x * n <= top < x * n + n) by (nonlinear_arith)
        requires
            x == top / n,
            n > 0,
    ;
    assert(a * base + base <= n * base) by (nonlinear_arith)
        requires
            a < n,
            base == 0x1_0000_0000_0000_0000int,
    ;
    assert(a * base >= 0) by (nonlinear_arith)
        requires
            a >= 0,
            base == 0x1_0000_0000_0000_0000int,
    ;
    assert(0 <= x < base) by (nonlinear_arith)
        requires
            x * n <= top < x * n + n,
            top >= 0,
            top < n * base,
            n > 0,
    ;
    assert((x * n) / base == a) by (nonlinear_arith)
        requires
            a * base <= x * n < a * base + base,
            base == 0x1_0000_0000_0000_0000int,
    ;
    x as u64
}

/// What a stream yields: the next word of the generator, scaled by its share
/// of `2^64` where a bound is given. Each value below the bound is that of some
/// word, and words that grow give values that grow.
pub proof fn law_draws_below(state: Seq<u8>, n: int, a: int, v: u64, w: u64)
    requires
        0 < n <= 0x1_0000_0000_0000_0000,
        0 <= a < n,
        v <= w,
    ensures
        word(state) == xoshiro_drawn(state).0,
        after_word(state) == xoshiro_drawn(state).1,
        scaled(w, n) as int == (w as int * n) / 0x1_0000_0000_0000_0000,
        scaled(w, n) < n,
        scaled(v, n) <= scaled(w, n),
        exists|x: u64| #[trigger] scaled(x, n) == a,
{
    lemma_scaled_below(w, n);
    lemma_scaled_below(v, n);
    let base: int = 0x1_0000_0000_0000_0000;
    let p: int = v as int;
    let q: int = w as int;
    assert((p * n) / base <= (q * n) / base) by (nonlinear_arith)
        requires
            p <= q,
            n > 0,
            base == 0x1_0000_0000_0000_0000int,
    ;
    let x = lemma_word_for(n, a);
    lemma_scaled_below(x, n);
    assert(scaled(x, n) == a);
}

/// A draw from a range: every value of it, both ends among them, can come up,
/// and none outside it. A range without a choice is its lower end, and takes
/// nothing from the stream; any other takes one word.
pub proof fn law_draws_ranged(state: Seq<u8>, lo: u64, hi: u64, a: u64)
    requires
        lo <= a <= hi,
    ensures
        lo == hi ==> ranged(state, lo, hi) == lo && after_range(state, lo, hi) == state,
        lo < hi ==> {
            &&& ranged(state, lo, hi) as int == lo + (xoshiro_drawn(state).0 as int * (hi - lo + 1))
                / 0x1_0000_0000_0000_0000
            &&& lo <= ranged(state, lo, hi) <= hi
            &&& after_range(state, lo, hi) == xoshiro_drawn(state).1
            &&& exists|x: u64| lo + #[trigger] scaled(x, hi - lo + 1) == a
        },
        hi < u64::MAX ==> ranged(state, (hi + 1) as u64, lo) == hi + 1,
        hi < u64::MAX ==> after_range(state, (hi + 1) as u64, lo) == state,
{
    if lo < hi {
        lemma_ranged_within(state, lo, hi);
        lemma_scaled_below(word(state), hi - lo + 1);
        law_draws_below(state, hi - lo + 1, a - lo, 0, 0);
    }
}

/// How an event is decided: one that never happens takes nothing from the
/// stream, any other takes one word, and happens exactly when the word's share
/// of `2^64` falls short of the threshold's share of `2^53`. A threshold of
/// none never lets it happen, one of all steps always does, and a higher one
/// does wherever a lower one did.
pub proof fn law_rolls(state: Seq<u8>, t: u64, u: u64)
    requires
        t <= u,
    ensures
        !rolled(state, Probability::Never),
        after_roll(state, Probability::Never) == state,
        after_roll(state, Probability::Below(t)) == xoshiro_drawn(state).1,
        rolled(state, Probability::Below(t)) == ((xoshiro_drawn(state).0 as int) < 2048 * t as int),
        !rolled(state, Probability::Below(0)),
        t >= 9_007_199_254_740_992 ==> rolled(state, Probability::Below(t)),
        rolled(state, Probability::Below(t)) ==> rolled(state, Probability::Below(u)),
        fraction(xoshiro_drawn(state).0) as int == xoshiro_drawn(state).0 as int / 2048,
        FRACTION_STEPS * 2048 == 0x1_0000_0000_0000_0000,
{
}

/// The thresholds that have a name are the least at or above their share of
/// all steps.
pub proof fn law_named_shares()
    ensures
        100 * (ONE_PERCENT - 1) < FRACTION_STEPS <= 100 * ONE_PERCENT,
        50 * (TWO_PERCENT - 1) < FRACTION_STEPS <= 50 * TWO_PERCENT,
        20 * (FIVE_PERCENT - 1) < FRACTION_STEPS <= 20 * FIVE_PERCENT,
        FRACTION_STEPS == 9_007_199_254_740_992,
{
}

/// A configuration injects nothing exactly when each of its four faults never
/// happens; the plain one is such a configuration.
pub proof fn law_fault_free(f: FaultConfig)
    ensures
        f.fault_free() == (f.send_reject_prob == Probability::Never && f.delay_prob
            == Probability::Never && f.duplicate_prob == Probability::Never && f.crash_prob
            == Probability::Never),
        FaultConfig::none().fault_free(),
        FaultConfig::none().delay_ticks_min == 1,
        FaultConfig::none().delay_ticks_max == 8,
{
}

} // verus!
