use actor_kit::sim::faults::{SimRng, FRACTION_STEPS};
use actor_kit::sim::{FaultConfig, Probability};

/// The threshold of a probability.
fn prob(p: f64) -> Probability {
    if p <= 0.0 {
        Probability::Never
    } else {
        Probability::Below((p * FRACTION_STEPS as f64).ceil() as u64)
    }
}

#[test]
fn same_seed_same_stream() {
    let mut a = SimRng::new(12345);
    let mut b = SimRng::new(12345);
    for _ in 0..1000 {
        assert_eq!(a.next_u64(), b.next_u64());
    }
}

#[test]
fn streams_are_xoshiro() {
    let mut a = SimRng::new(0);
    assert_eq!(a.next_u64(), 0x5317_5d61_490b_23df);
    assert_eq!(a.next_u64(), 0x61da_6f3d_c380_d507);
    assert_eq!(a.next_u64(), 0x5c0f_df91_ec9a_7bfc);
    let mut b = SimRng::new(42);
    assert_eq!(b.next_u64(), 0xd076_4d4f_4476_689f);
    assert_eq!(b.next_u64(), 0x519e_4174_576f_3791);
}

#[test]
fn next_f64_in_range() {
    let mut rng = SimRng::new(7);
    for _ in 0..10_000 {
        let x = rng.next_fraction() as f64 / FRACTION_STEPS as f64;
        assert!((0.0..1.0).contains(&x), "out of range: {x}");
    }
}

#[test]
fn fractions_are_the_high_bits() {
    let mut rng = SimRng::new(42);
    assert_eq!(rng.next_fraction(), 7_334_608_696_282_829);
    assert_eq!(rng.next_fraction(), 2_871_684_634_439_142);
}

#[test]
fn below_bounded_and_covers() {
    let mut rng = SimRng::new(99);
    let mut seen = [false; 8];
    for _ in 0..10_000 {
        let v = rng.below(8);
        assert!(v < 8);
        seen[v as usize] = true;
    }
    assert!(seen.iter().all(|&s| s), "all buckets hit");
}

#[test]
fn below_scales_the_word() {
    let mut rng = SimRng::new(42);
    let drawn: Vec<u64> = (0..6).map(|_| rng.below(8)).collect();
    assert_eq!(drawn, vec![6, 2, 7, 5, 6, 4]);
}

#[test]
fn roll_zero_never_true_and_is_deterministic() {
    let mut a = SimRng::new(5);
    let mut b = SimRng::new(5);
    for _ in 0..100 {
        assert!(!a.roll(prob(0.0)));
        assert_eq!(a.next_u64(), b.next_u64(), "zero-prob draws consume nothing");
    }
    assert!((0..100).filter(|_| a.roll(prob(1.0))).count() == 100);
}

#[test]
fn rolls_compare_as_fractions_do() {
    for p in [0.01, 0.02, 0.05, 0.1, 0.125, 0.3, 0.5, 0.999] {
        let mut a = SimRng::new(31);
        let mut b = SimRng::new(31);
        for _ in 0..2_000 {
            let x = b.next_fraction() as f64 * (1.0 / FRACTION_STEPS as f64);
            assert_eq!(a.roll(prob(p)), x < p);
        }
    }
}

#[test]
fn range_inclusive() {
    let mut rng = SimRng::new(11);
    for _ in 0..1000 {
        assert_eq!(rng.range(3, 3), 3);
        let v = rng.range(2, 5);
        assert!((2..=5).contains(&v));
    }
}

#[test]
fn ranges_start_at_their_low_end() {
    let mut rng = SimRng::new(42);
    let drawn: Vec<u64> = (0..6).map(|_| rng.range(1, 8)).collect();
    assert_eq!(drawn, vec![7, 3, 8, 6, 7, 5]);
    assert_eq!(SimRng::new(1).range(9, 2), 9, "an empty range is its low end");
}

#[test]
fn the_full_range_is_the_word_itself() {
    let mut rng = SimRng::new(42);
    assert_eq!(rng.range(0, u64::MAX), 0xd076_4d4f_4476_689f);
    assert_eq!(rng.range(5, 5), 5, "no draw");
    assert_eq!(rng.next_u64(), 0x519e_4174_576f_3791);
    for _ in 0..100 {
        assert!(rng.range(1, u64::MAX) >= 1);
    }
}

#[test]
fn chaos_turns_every_fault_on() {
    let faults = FaultConfig::chaos(prob(0.25));
    assert_eq!(faults.send_reject_prob, prob(0.01));
    assert_eq!(faults.delay_prob, prob(0.05));
    assert_eq!(faults.duplicate_prob, prob(0.02));
    assert_eq!(faults.crash_prob, prob(0.25));
    assert_eq!((faults.delay_ticks_min, faults.delay_ticks_max), (1, 8));
    assert!(!faults.is_fault_free());
}

#[test]
fn the_default_injects_nothing() {
    let mut faults = FaultConfig::default();
    assert!(faults.is_fault_free());
    faults.delay_prob = prob(0.5);
    assert!(!faults.is_fault_free());
}
