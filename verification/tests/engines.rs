use luffverb::GenState;
use luffverb::LuffVerb;
use luffverb::fixed::SAMPLE_LIMIT;
use luffverb::fixed::UNIT;
use luffverb::galactic::Galactic;

#[test]
fn luffverb_impulse_is_bounded_and_continues() {
    let block = 32usize;
    let mut verb = LuffVerb::new(2000, UNIT / 2);
    verb.init(block);
    let lowpass = vec![UNIT; block];
    let damping = vec![UNIT / 2; block];
    let mut saw_nonzero = false;
    for step in 0..128 {
        let mut input = vec![0i64; block];
        if step == 0 {
            input[0] = UNIT;
        }
        let mut output = vec![0i64; block];
        let state = verb.process(&input, &mut output, &lowpass, &damping);
        assert_eq!(state, GenState::Continue);
        for &v in &output {
            assert!(v.abs() <= SAMPLE_LIMIT);
            if v != 0 {
                saw_nonzero = true;
            }
        }
    }
    assert!(saw_nonzero, "the reverb never answered the impulse");
}

#[test]
fn luffverb_random_blocks_never_leave_range() {
    // Sustained randomized input and in-range controls: every sample the
    // engine emits stays inside the representable sample range.
    let block = 64usize;
    let mut verb = LuffVerb::new(4000, (UNIT * 9) / 10);
    verb.init(block);
    let mut rng_state: u32 = 0x12345678;
    let mut next = |limit: i64| -> i64 {
        rng_state ^= rng_state << 13;
        rng_state ^= rng_state >> 17;
        rng_state ^= rng_state << 5;
        (rng_state as i64 % (2 * limit + 1)) - limit
    };
    let samples_total = 1_000_000usize;
    for _ in 0..samples_total / block {
        let input: Vec<i64> = (0..block).map(|_| next(4 * UNIT)).collect();
        let lowpass: Vec<i64> = (0..block).map(|_| next(UNIT / 2) + UNIT / 2).collect();
        let damping: Vec<i64> = (0..block).map(|_| next(UNIT / 2) + UNIT / 2).collect();
        let mut output = vec![0i64; block];
        verb.process(&input, &mut output, &lowpass, &damping);
        for &v in &output {
            assert!(v.abs() <= SAMPLE_LIMIT);
        }
    }
}

fn control(value: i64, len: usize) -> Vec<i64> {
    vec![value; len]
}

#[test]
fn galactic_zero_mix_passes_dry_signal() {
    // With the dither stage off and mix at zero, the output is the dry
    // input, bit for bit.
    let block = 64usize;
    let mut verb = Galactic::from_state(123456, 987654, false);
    verb.init(44100);
    let input_l: Vec<i64> = (0..block).map(|i| (i as i64 - 32) * 1000).collect();
    let input_r: Vec<i64> = (0..block).map(|i| (40 - i as i64) * 777).collect();
    let mut out_l = vec![0i64; block];
    let mut out_r = vec![0i64; block];
    let state = verb.process(
        &input_l,
        &input_r,
        &control(UNIT / 2, 1),
        &control(UNIT / 2, 1),
        &control(UNIT / 2, 1),
        &control(UNIT / 2, 1),
        &control(0, 1),
        &mut out_l,
        &mut out_r,
        44100,
    );
    assert_eq!(state, GenState::Continue);
    assert_eq!(out_l, input_l);
    assert_eq!(out_r, input_r);
}

#[test]
fn galactic_full_wet_has_no_dry_component() {
    // With mix at one the cross-fade is skipped: on a freshly initialized
    // engine the first block's wet path is still silent, so a loud dry input
    // leaves no trace at all in the output.
    let block = 32usize;
    let mut verb = Galactic::from_state(424242, 242424, false);
    verb.init(44100);
    let input_l: Vec<i64> = vec![30000; block];
    let input_r: Vec<i64> = vec![-30000; block];
    let mut out_l = vec![99i64; block];
    let mut out_r = vec![99i64; block];
    verb.process(
        &input_l,
        &input_r,
        &control(UNIT / 2, 1),
        &control(UNIT / 2, 1),
        &control(UNIT / 2, 1),
        &control(0, 1),
        &control(UNIT, 1),
        &mut out_l,
        &mut out_r,
        44100,
    );
    assert_eq!(out_l, vec![0i64; block]);
    assert_eq!(out_r, vec![0i64; block]);
}

#[test]
fn galactic_reverberates_an_impulse() {
    let block = 128usize;
    let mut verb = Galactic::from_state(55555, 66666, false);
    verb.init(44100);
    let mut saw_nonzero = false;
    for step in 0..64 {
        let mut input_l = vec![0i64; block];
        let input_r = vec![0i64; block];
        if step == 0 {
            input_l[0] = 10 * UNIT;
        }
        let mut out_l = vec![0i64; block];
        let mut out_r = vec![0i64; block];
        verb.process(
            &input_l,
            &input_r,
            &control(UNIT, 1),
            &control(UNIT / 2, 1),
            &control(UNIT, 1),
            &control(0, 1),
            &control(UNIT, 1),
            &mut out_l,
            &mut out_r,
            44100,
        );
        for &v in out_l.iter().chain(out_r.iter()) {
            assert!(v.abs() <= SAMPLE_LIMIT);
            if v != 0 {
                saw_nonzero = true;
            }
        }
    }
    assert!(saw_nonzero, "no reverberated signal ever appeared");
}

#[test]
fn galactic_random_blocks_never_leave_range() {
    let block = 64usize;
    let mut verb = Galactic::new();
    verb.init(48000);
    let mut rng_state: u32 = 0xdeadbeef;
    let mut next = |limit: i64| -> i64 {
        rng_state ^= rng_state << 13;
        rng_state ^= rng_state >> 17;
        rng_state ^= rng_state << 5;
        (rng_state as i64 % (2 * limit + 1)) - limit
    };
    let samples_total = 1_000_000usize;
    for _ in 0..samples_total / block {
        let input_l: Vec<i64> = (0..block).map(|_| next(8 * UNIT)).collect();
        let input_r: Vec<i64> = (0..block).map(|_| next(8 * UNIT)).collect();
        let controls: Vec<i64> = (0..5).map(|_| next(UNIT / 2) + UNIT / 2).collect();
        let mut out_l = vec![0i64; block];
        let mut out_r = vec![0i64; block];
        verb.process(
            &input_l,
            &input_r,
            &control(controls[0], 1),
            &control(controls[1], 1),
            &control(controls[2], 1),
            &control(controls[3], 1),
            &control(controls[4], 1),
            &mut out_l,
            &mut out_r,
            48000,
        );
        for &v in out_l.iter().chain(out_r.iter()) {
            assert!(v.abs() <= SAMPLE_LIMIT);
        }
    }
}
