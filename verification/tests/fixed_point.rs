use luffverb::clip;
use luffverb::fixed::SAMPLE_LIMIT;
use luffverb::fixed::UNIT;
use luffverb::fixed::isqrt64;
use luffverb::galactic::GalacticParams;
use luffverb::galactic::PI_Q16;
use luffverb::galactic::derive_params;
use luffverb::galactic::frexp;
use luffverb::galactic::sine;
use luffverb::galactic::xorshift_step;
use luffverb::mul_gain;
use luffverb::one_pole;

#[test]
fn clip_saturates_at_the_sample_limit() {
    assert_eq!(clip(5), 5);
    assert_eq!(clip(SAMPLE_LIMIT + 1), SAMPLE_LIMIT);
    assert_eq!(clip(-SAMPLE_LIMIT - 99), -SAMPLE_LIMIT);
}

#[test]
fn gain_multiply_truncates_toward_zero() {
    assert_eq!(mul_gain(UNIT, UNIT / 2), UNIT / 2);
    assert_eq!(mul_gain(3, UNIT / 2), 1);
    assert_eq!(mul_gain(-3, UNIT / 2), -1);
    assert_eq!(mul_gain(100, 0), 0);
    assert_eq!(mul_gain(100, UNIT), 100);
}

#[test]
fn one_pole_blends_between_state_and_input() {
    // Full coefficient: the filter passes the input through.
    assert_eq!(one_pole(12345, 777, UNIT), 777);
    // Zero coefficient: the filter holds its state.
    assert_eq!(one_pole(12345, 777, 0), 12345);
    // Half: the midpoint, truncated toward zero per term.
    assert_eq!(one_pole(100, 200, UNIT / 2), 150);
}

#[test]
fn integer_square_roots() {
    assert_eq!(isqrt64(0), 0);
    assert_eq!(isqrt64(1), 1);
    assert_eq!(isqrt64(17), 4);
    assert_eq!(isqrt64(65536 * 65536), 65536);
    assert_eq!(isqrt64(u64::MAX), 4294967295);
}

#[test]
fn sine_hits_the_zero_crossings() {
    assert_eq!(sine(0), 0);
    assert_eq!(sine(PI_Q16), 0);
    let peak = sine(PI_Q16 / 2);
    assert!(peak > UNIT - 16 && peak <= UNIT);
    // Mirror symmetry into the negative half-wave.
    assert_eq!(sine(PI_Q16 + PI_Q16 / 2), -peak);
}

#[test]
fn frexp_brackets_magnitudes() {
    assert_eq!(frexp(0), (0, 1));
    assert_eq!(frexp(1), (1, 2));
    assert_eq!(frexp(-1), (1, 2));
    assert_eq!(frexp(UNIT), (17, 2 * UNIT));
    let (e, p) = frexp(12345);
    assert_eq!((e, p), (14, 16384));
}

#[test]
fn xorshift_walks_without_sticking() {
    let mut x: u32 = 16386;
    let mut seen_same = 0;
    for _ in 0..1000 {
        let next = xorshift_step(x);
        if next == x {
            seen_same += 1;
        }
        x = next;
        assert!(x != 0);
    }
    assert_eq!(seen_same, 0);
}

#[test]
fn derived_parameters_match_the_formulas() {
    let p = derive_params(UNIT, 0, UNIT, 0, UNIT, 44100);
    assert_eq!(
        p,
        GalacticParams {
            regen: 8192,
            attenuate: 0,
            lowpass: UNIT,
            drift: 0,
            size_frac: UNIT,
            wet: UNIT,
        }
    );
    // Replace at one keeps only the base regeneration; mix at zero is dry.
    let q = derive_params(0, UNIT, 0, UNIT, 0, 44100);
    assert_eq!(q.regen, 4096);
    assert_eq!(q.wet, 0);
    assert_eq!(q.size_frac, 6554);
    assert_eq!(q.drift, 66);
}
