//! Virtual time for deterministic simulation.
//!
//! [`SimClock`] stands in for the wall clock on the simulation path.
//! Simulated time starts at microsecond zero and moves only when
//! [`SimClock::advance`] is called, never by waiting.
use std::time::Duration;
use vstd::prelude::*;

verus! {

/// What [`Duration::as_micros`] returns for `d`.
pub uninterp spec fn duration_micros(d: Duration) -> u128;

/// What [`Duration::from_micros`] returns for `micros`.
pub uninterp spec fn micros_duration(micros: u64) -> Duration;

/// Calls [`Duration::as_micros`]: the whole microseconds of the duration.
#[verifier::external_body]
fn as_micros(d: Duration) -> (r: u128)
    ensures
        r == duration_micros(d),
{
    d.as_micros()
}

/// Calls [`Duration::from_micros`]: a duration of exactly `micros`
/// microseconds, so reading its microseconds gives `micros` back.
#[verifier::external_body]
pub(crate) fn from_micros(micros: u64) -> (d: Duration)
    ensures
        d == micros_duration(micros),
        duration_micros(d) == micros,
{
    Duration::from_micros(micros)
}

/// `a + b`, held at `u64::MAX`.
pub open spec fn saturating_sum(a: int, b: int) -> u64 {
    if a + b > u64::MAX {
        u64::MAX
    } else {
        (a + b) as u64
    }
}

/// The microseconds of `d`, held at `u64::MAX`.
pub open spec fn micros_of_spec(d: Duration) -> u64 {
    saturating_sum(duration_micros(d) as int, 0)
}

/// Saturating microsecond count of a duration.
pub fn micros_of(duration: Duration) -> (r: u64)
    ensures
        r == micros_of_spec(duration),
{
    let wide: u128 = as_micros(duration);
    if wide > u64::MAX as u128 {
        u64::MAX
    } else {
        wide as u64
    }
}

/// A point in simulated time (microsecond resolution).
///
/// An opaque count of simulated microseconds since the epoch. Arithmetic
/// saturates.
#[derive(Debug, Clone, Copy, PartialEq, Eq, PartialOrd, Ord, Hash, Structural)]
pub struct SimInstant {
    micros: u64,
}

impl View for SimInstant {
    type V = u64;

    closed spec fn view(&self) -> u64 {
        self.micros
    }
}

impl Default for SimInstant {
    fn default() -> (r: Self)
        ensures
            r@ == 0,
    {
        SimInstant { micros: 0 }
    }
}

impl SimInstant {
    /// The epoch (zero).
    pub fn epoch() -> (r: SimInstant)
        ensures
            r@ == 0,
            r == SimInstant::at(0),
    {
        SimInstant { micros: 0 }
    }

    /// The instant `micros` microseconds after the epoch.
    pub closed spec fn at(micros: u64) -> SimInstant {
        SimInstant { micros }
    }

    /// Raw microseconds since the epoch.
    pub fn as_micros(self) -> (r: u64)
        ensures
            r == self@,
    {
        self.micros
    }

    /// Amount of simulated time from `earlier` to `self`, zero when `earlier`
    /// is the later of the two.
    pub fn duration_since(self, earlier: Self) -> (r: Duration)
        ensures
            r == micros_duration(elapsed_between(earlier@, self@)),
            duration_micros(r) == elapsed_between(earlier@, self@),
    {
        from_micros(self.micros.saturating_sub(earlier.micros))
    }
}

/// Microseconds from `earlier` to `later`, zero when they are out of order.
pub open spec fn elapsed_between(earlier: u64, later: u64) -> u64 {
    if later >= earlier {
        (later - earlier) as u64
    } else {
        0
    }
}

impl std::ops::Add<Duration> for SimInstant {
    type Output = SimInstant;

    fn add(self, rhs: Duration) -> (r: SimInstant) {
        SimInstant { micros: self.micros.saturating_add(micros_of(rhs)) }
    }
}

impl vstd::std_specs::ops::AddSpecImpl<Duration> for SimInstant {
    open spec fn obeys_add_spec() -> bool {
        true
    }

    open spec fn add_req(self, rhs: Duration) -> bool {
        true
    }

    open spec fn add_spec(self, rhs: Duration) -> SimInstant {
        SimInstant::at(saturating_sum(self@ as int, micros_of_spec(rhs) as int))
    }
}

impl std::ops::Sub for SimInstant {
    type Output = Duration;

    fn sub(self, rhs: SimInstant) -> (r: Duration) {
        self.duration_since(rhs)
    }
}

impl vstd::std_specs::ops::SubSpecImpl for SimInstant {
    open spec fn obeys_sub_spec() -> bool {
        true
    }

    open spec fn sub_req(self, rhs: SimInstant) -> bool {
        true
    }

    open spec fn sub_spec(self, rhs: SimInstant) -> Duration {
        micros_duration(elapsed_between(rhs@, self@))
    }
}

/// Virtual clock: `now()` moves only through [`SimClock::advance`].
#[derive(Debug)]
pub struct SimClock {
    micros: u64,
}

impl View for SimClock {
    type V = u64;

    closed spec fn view(&self) -> u64 {
        self.micros
    }
}

impl SimClock {
    /// Create a clock at simulated time zero.
    pub fn new() -> (r: Self)
        ensures
            r@ == 0,
    {
        Self::with_start(0)
    }

    /// Create a clock starting at `micros` simulated microseconds.
    pub fn with_start(micros: u64) -> (r: Self)
        ensures
            r@ == micros,
    {
        SimClock { micros }
    }

    /// Current simulated instant.
    pub fn now(&self) -> (r: SimInstant)
        ensures
            r@ == self@,
    {
        SimInstant { micros: self.micros }
    }

    /// Advance simulated time by `duration` and return the new instant.
    ///
    /// This is the only way time moves in a simulation. Time holds at the
    /// last representable microsecond.
    pub fn advance(&mut self, duration: Duration) -> (r: SimInstant)
        ensures
            final(self)@ == saturating_sum(old(self)@ as int, micros_of_spec(duration) as int),
            r@ == final(self)@,
    {
        let micros: u64 = micros_of(duration);
        self.micros = self.micros.saturating_add(micros);
        SimInstant { micros: self.micros }
    }

    /// Simulated time elapsed since the epoch.
    pub fn elapsed(&self) -> (r: Duration)
        ensures
            r == micros_duration(self@),
            duration_micros(r) == self@,
    {
        from_micros(self.micros)
    }
}

impl Default for SimClock {
    fn default() -> (r: Self)
        ensures
            r@ == 0,
    {
        Self::new()
    }
}

/// The instant that is so many microseconds after the epoch reads so many
/// microseconds, and is the only one that does.
pub proof fn law_instants_are_micros(micros: u64, t: SimInstant)
    ensures
        SimInstant::at(micros)@ == micros,
        t == SimInstant::at(t@),
{
}

/// Adding a duration and taking the difference gives the duration back, in
/// whole microseconds, as long as the sum can be represented; past that the
/// sum holds at the last representable instant.
pub proof fn law_add_then_since(t: SimInstant, d: Duration)
    ensures
        t@ + micros_of_spec(d) <= u64::MAX ==> elapsed_between(
            t@,
            vstd::std_specs::ops::AddSpec::add_spec(t, d)@,
        ) == micros_of_spec(d),
        t@ + micros_of_spec(d) > u64::MAX ==> vstd::std_specs::ops::AddSpec::add_spec(t, d)@
            == u64::MAX,
{
}

/// Time never runs backwards: an instant after any duration is no earlier, and
/// the difference to a later instant is zero.
pub proof fn law_time_moves_forward(t: SimInstant, d: Duration)
    ensures
        t@ <= vstd::std_specs::ops::AddSpec::add_spec(t, d)@,
        elapsed_between(vstd::std_specs::ops::AddSpec::add_spec(t, d)@, t@) == 0,
{
}

/// What time arithmetic is, in microseconds: a sum holds at the last number
/// there is, and a difference at zero.
pub proof fn law_time_arithmetic(t: SimInstant, d: Duration, u: SimInstant)
    ensures
        ({
            let sum = t@ + duration_micros(d);
            let last = 0xffff_ffff_ffff_ffff;
            vstd::std_specs::ops::AddSpec::add_spec(t, d)@ as int == (if sum > last {
                last
            } else {
                sum
            })
        }),
        elapsed_between(u@, t@) as int == (if t@ >= u@ {
            t@ - u@
        } else {
            0
        }),
        vstd::std_specs::ops::SubSpec::sub_spec(t, u) == micros_duration(
            (if t@ >= u@ {
                t@ - u@
            } else {
                0
            }) as u64,
        ),
        micros_of_spec(d) as int == (if duration_micros(d) > 0xffff_ffff_ffff_ffff {
            0xffff_ffff_ffff_ffff
        } else {
            duration_micros(d) as int
        }),
        saturating_sum(t@ as int, u@ as int) as int == (if t@ + u@ > 0xffff_ffff_ffff_ffff {
            0xffff_ffff_ffff_ffff
        } else {
            t@ + u@
        }),
{
}

} // verus!
