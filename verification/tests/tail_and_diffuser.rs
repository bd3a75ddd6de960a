use luffverb::Diffuser;
use luffverb::Tail;
use luffverb::fixed::SAMPLE_LIMIT;
use luffverb::fixed::UNIT;

fn run_tail_block(tail: &mut Tail, input: i64) -> i64 {
    let inp: Vec<Vec<i64>> = vec![vec![input]];
    let mut out: Vec<Vec<i64>> = vec![vec![0]];
    let damping: Vec<i64> = vec![UNIT];
    tail.process_block(&inp, &mut out, &damping);
    out[0][0]
}

#[test]
fn tail_impulse_returns_exactly_after_delay_length() {
    // A single-channel tail with feedback gain one and a pass-through
    // damping coefficient reproduces a unit impulse exactly after its delay
    // length, with zeros strictly in between.
    let mut tail = Tail::new(1, 10, UNIT);
    tail.init(1);
    let mut outputs: Vec<i64> = Vec::new();
    outputs.push(run_tail_block(&mut tail, UNIT));
    for _ in 0..12 {
        outputs.push(run_tail_block(&mut tail, 0));
    }
    // The delay length is drawn from [1, 10), so the echo lands within the
    // first ten samples; before it everything is zero, and it is exact.
    assert_eq!(outputs[0], 0);
    let first_nonzero = outputs.iter().position(|&v| v != 0).expect("echo expected");
    assert!(first_nonzero >= 1 && first_nonzero < 10);
    for &v in &outputs[..first_nonzero] {
        assert_eq!(v, 0);
    }
    assert_eq!(outputs[first_nonzero], UNIT);
}

#[test]
fn tail_decays_to_zero_with_gain_below_one() {
    // Fill the loop, then feed silence: with gain 1/2 the stored energy
    // shrinks every cycle and reaches exactly zero in fixed point.
    let mut tail = Tail::new(1, 20, UNIT / 2);
    tail.init(1);
    for _ in 0..20 {
        run_tail_block(&mut tail, 3 * UNIT);
    }
    let mut previous_peak = i64::MAX;
    let mut last_window_peak = i64::MAX;
    for _window in 0..40 {
        let mut peak: i64 = 0;
        for _ in 0..20 {
            let v = run_tail_block(&mut tail, 0).abs();
            if v > peak {
                peak = v;
            }
        }
        assert!(peak <= previous_peak, "tail magnitude grew during silence");
        previous_peak = peak;
        last_window_peak = peak;
    }
    assert_eq!(last_window_peak, 0, "tail did not die out");
}

#[test]
fn diffuser_keeps_samples_bounded_and_mixes() {
    let mut diffuser = Diffuser::new(8, 64);
    assert_eq!(diffuser.channels(), 8);
    let block = 16usize;
    let mut saw_nonzero = false;
    for step in 0..16 {
        let value: i64 = if step == 0 { UNIT } else { 0 };
        let mut input: Vec<Vec<i64>> = Vec::new();
        for _ in 0..8 {
            let mut row = vec![0i64; block];
            row[0] = value;
            input.push(row);
        }
        let mut output: Vec<Vec<i64>> = vec![vec![0i64; block]; 8];
        diffuser.process_block(&input, &mut output);
        for row in &output {
            for &v in row {
                assert!(v.abs() <= SAMPLE_LIMIT);
                if v != 0 {
                    saw_nonzero = true;
                }
            }
        }
    }
    assert!(saw_nonzero, "diffuser never echoed the impulse");
}

#[test]
fn diffuser_init_is_a_no_op() {
    let mut diffuser = Diffuser::new(2, 16);
    diffuser.init(64);
    assert_eq!(diffuser.channels(), 2);
}
