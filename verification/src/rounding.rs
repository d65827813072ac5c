//! Whole numbers in single precision: products by 0.8, rounded as a 24-bit
//! significand rounds them.
use vstd::arithmetic::power2::{lemma2_to64, lemma_pow2_unfold, pow2};
use vstd::prelude::*;

verus! {

/// Numbers below this have a significand to themselves, `2^24`.
pub const SIGNIFICANDS: u128 = 16_777_216;

/// 0.8 in single precision is this many `2^24`ths.
pub const EIGHT_TENTHS: u128 = 13_421_773;

/// The distance between neighbouring single-precision numbers around `n`: the
/// least power of two of which `n` holds fewer than `2^24`.
pub open spec fn unit_of(n: int) -> int
    decreases n,
{
    if n < SIGNIFICANDS {
        1
    } else {
        2 * unit_of(n / 2)
    }
}

/// The single-precision number nearest to `n`, the one with the even
/// significand when two are.
pub open spec fn single(n: int) -> int {
    let u = unit_of(n);
    let below = n - n % u;
    let rest = n % u;
    if 2 * rest < u || (2 * rest == u && (n / u) % 2 == 0) {
        below
    } else {
        below + u
    }
}

/// Four fifths of `n` in single precision, the fraction cut off: `n` and the
/// product are each rounded to the nearest single-precision number.
pub open spec fn four_fifths(n: int) -> int {
    single(single(n) * EIGHT_TENTHS) / (SIGNIFICANDS as int)
}

/// The distance between neighbours is small against the number.
proof fn lemma_unit_small(n: int)
    requires
        n >= 0,
    ensures
        unit_of(n) >= 1,
        n < SIGNIFICANDS ==> unit_of(n) == 1,
        n >= SIGNIFICANDS ==> 8_388_608 * unit_of(n) <= n,
    decreases n,
{
    if n >= SIGNIFICANDS {
        lemma_unit_small(n / 2);
    }
}

/// Rounding adds little.
proof fn lemma_single_near(n: int)
    requires
        n >= 0,
    ensures
        0 <= single(n),
        SIGNIFICANDS * single(n) <= (SIGNIFICANDS + 1) * n,
{
    lemma_unit_small(n);
    let u = unit_of(n);
    assert(0 <= n % u < u && n % u <= n) by (nonlinear_arith)
        requires
            u >= 1,
            n >= 0,
    ;
}

/// Four fifths are less than the whole.
pub proof fn lemma_four_fifths_less(n: int)
    requires
        n >= 0,
    ensures
        0 <= four_fifths(n) <= n,
{
    lemma_single_near(n);
    lemma_single_near(single(n) * EIGHT_TENTHS);
}

/// The distance between neighbouring single-precision numbers around `n`.
fn unit_around(n: u128) -> (r: u128)
    ensures
        r == unit_of(n as int),
    decreases n,
{
    proof {
        lemma_unit_small(n as int);
        lemma_unit_small(n as int / 2);
    }
    if n < SIGNIFICANDS {
        1
    } else {
        2 * unit_around(n / 2)
    }
}

/// The single-precision number nearest to `n`.
fn to_single(n: u128) -> (r: u128)
    requires
        n <= u128::MAX / 4,
    ensures
        r == single(n as int),
{
    let unit: u128 = unit_around(n);
    proof {
        lemma_unit_small(n as int);
    }
    let rest: u128 = n % unit;
    let below: u128 = n - rest;
    if 2 * rest < unit || (2 * rest == unit && (n / unit) % 2 == 0) {
        below
    } else {
        below + unit
    }
}

/// Four fifths of a number in single precision, the fraction cut off.
pub fn scale_to_four_fifths(n: usize) -> (r: usize)
    ensures
        r == four_fifths(n as int),
        r <= n,
{
    proof {
        lemma_single_near(n as int);
        lemma_four_fifths_less(n as int);
    }
    let near: u128 = to_single(n as u128);
    let product: u128 = to_single(near * EIGHT_TENTHS);
    (product / SIGNIFICANDS) as usize
}

/// The distance between neighbours is the power of two that leaves the number
/// fewer than `2^24` of it, and no fewer than half as many where it is not one.
proof fn lemma_unit_is_power(n: int, k: nat) -> (q: (nat, int))
    requires
        0 <= n < 16_777_216 * pow2(k),
    ensures
        q.0 <= k,
        unit_of(n) == pow2(q.0),
        pow2(k) == q.1 * unit_of(n),
        n < 16_777_216 * unit_of(n),
        unit_of(n) > 1 ==> n >= 8_388_608 * unit_of(n),
    decreases k,
{
    lemma_unit_small(n);
    lemma2_to64();
    if n < 16_777_216 {
        (0, pow2(k) as int)
    } else {
        if k == 0 {
            assert(false);
        }
        lemma_pow2_unfold(k);
        let p = lemma_unit_is_power(n / 2, (k - 1) as nat);
        lemma_pow2_unfold(p.0 + 1);
        let u: int = unit_of(n / 2);
        assert(2 * (p.1 * u) == p.1 * (2 * u)) by (nonlinear_arith);
        (p.0 + 1, p.1)
    }
}

/// What rounding to single precision is. Neighbouring numbers are a power of
/// two apart, the least that leaves fewer than `2^24` of them below; a number
/// goes to a neighbour no further away than the other, and to the one with the
/// even significand when both are as far.
pub proof fn law_nearest_single(n: int, k: nat) -> (j: nat)
    requires
        0 <= n < 16_777_216 * pow2(k),
    ensures
        j <= k,
        n < 16_777_216 * pow2(j),
        j > 0 ==> n >= 8_388_608 * pow2(j),
        single(n) % (pow2(j) as int) == 0,
        -(pow2(j) as int) <= 2 * (single(n) - n) <= pow2(j),
        2 * (single(n) - n) == pow2(j) || 2 * (single(n) - n) == -(pow2(j) as int) ==> (single(n)
            / (pow2(j) as int)) % 2 == 0,
        n < 16_777_216 ==> single(n) == n,
{
    let q = lemma_unit_is_power(n, k);
    let u: int = unit_of(n);
    lemma_unit_small(n);
    lemma2_to64();
    if q.0 > 0 {
        lemma_pow2_unfold(q.0);
        vstd::arithmetic::power2::lemma_pow2_pos((q.0 - 1) as nat);
    }
    let a: int = n / u;
    let r: int = n % u;
    assert(n == a * u + r && 0 <= r < u) by (nonlinear_arith)
        requires
            u >= 1,
            a == n / u,
            r == n % u,
    ;
    assert((a * u) % u == 0 && (a * u) / u == a) by (nonlinear_arith)
        requires
            u >= 1,
    ;
    let b: int = a + 1;
    assert(a * u + u == b * u) by (nonlinear_arith)
        requires
            b == a + 1,
    ;
    assert((b * u) % u == 0 && (b * u) / u == b) by (nonlinear_arith)
        requires
            u >= 1,
    ;
    if n < 16_777_216 {
        assert(r == 0);
    }
    q.0
}

/// How far two roundings and the cut can move four fifths.
proof fn lemma_two_roundings(n: int, m: int, x: int, g: int)
    requires
        n >= 0,
        16_777_215 * n <= 16_777_216 * m <= 16_777_217 * n,
        16_777_215 * (m * 13_421_773) <= 16_777_216 * x <= 16_777_217 * (m * 13_421_773),
        16_777_216 * g <= x < 16_777_216 * (g + 1),
    ensures
        20_971_520 * g <= 4_194_305 * (4 * n),
        20_971_520 * (g + 1) > 4_194_303 * (4 * n),
{
}

/// Four fifths are four fifths: of a number small enough for single precision
/// not to matter, exactly so many whole ones, and of any other off by no more
/// than a four-millionth and the fraction cut off.
pub proof fn law_four_fifths(n: int)
    requires
        n >= 0,
    ensures
        n <= 3_355_443 ==> four_fifths(n) == 4 * n / 5,
        20_971_520 * four_fifths(n) <= 4_194_305 * (4 * n),
        20_971_520 * (four_fifths(n) + 1) > 4_194_303 * (4 * n),
{
    let m: int = single(n);
    let p: int = m * 13_421_773;
    let x: int = single(p);
    lemma_single_near(n);
    lemma_single_not_below(n);
    lemma_single_near(p);
    lemma_single_not_below(p);
    let g: int = four_fifths(n);
    assert(g == x / 16_777_216);
    assert(16_777_215 * n <= 16_777_216 * m <= 16_777_217 * n) by (nonlinear_arith)
        requires
            SIGNIFICANDS == 16_777_216,
            (SIGNIFICANDS - 1) * n <= SIGNIFICANDS * m <= (SIGNIFICANDS + 1) * n,
    ;
    assert(16_777_215 * p <= 16_777_216 * x <= 16_777_217 * p) by (nonlinear_arith)
        requires
            SIGNIFICANDS == 16_777_216,
            (SIGNIFICANDS - 1) * p <= SIGNIFICANDS * x <= (SIGNIFICANDS + 1) * p,
    ;
    assert(16_777_216 * g <= x < 16_777_216 * (g + 1));
    lemma_two_roundings(n, m, x, g);
    if n <= 3_355_443 {
        lemma2_to64();
        let q = lemma_unit_is_power(p, 24);
        lemma_unit_small(p);
        let u: int = unit_of(p);
        let f: int = 4 * n / 5;
        assert(m == n) by {
            lemma_unit_small(n);
        }
        let whole: int = f * 16_777_216;
        assert(whole <= p);
        assert(whole == (f * q.1) * u) by (nonlinear_arith)
            requires
                whole == f * 16_777_216,
                16_777_216 == q.1 * u,
        ;
        let c: int = f * q.1;
        let below: int = p - p % u;
        let a: int = p / u;
        assert(below == a * u) by (nonlinear_arith)
            requires
                u >= 1,
                a == p / u,
                below == p - p % u,
        ;
        assert(a >= c) by (nonlinear_arith)
            requires
                u >= 1,
                a == p / u,
                c * u <= p,
        ;
        assert(a * u >= c * u) by (nonlinear_arith)
            requires
                a >= c,
                u >= 1,
        ;
        assert(x >= whole);
        assert(x < whole + 16_777_216);
    }
}

/// Rounding takes little away.
proof fn lemma_single_not_below(n: int)
    requires
        n >= 0,
    ensures
        SIGNIFICANDS * single(n) >= (SIGNIFICANDS - 1) * n,
{
    lemma_unit_small(n);
    let u = unit_of(n);
    assert(0 <= n % u < u && n % u <= n) by (nonlinear_arith)
        requires
            u >= 1,
            n >= 0,
    ;
}

} // verus!
