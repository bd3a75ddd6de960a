use luffverb::DelayLine;
use luffverb::fixed::UNIT;

#[test]
fn round_trip_after_length_advances() {
    // Writing v, then advancing exactly `length` times in total, reads v back.
    let mut line = DelayLine::new(5);
    line.write_and_advance(42);
    for junk in [7i64, -3, 9, 1] {
        line.write_and_advance(junk);
    }
    assert_eq!(line.read(), 42);
}

#[test]
fn round_trip_length_one() {
    let mut line = DelayLine::new(1);
    line.write_and_advance(-17);
    assert_eq!(line.read(), -17);
}

#[test]
fn fresh_line_reads_zero() {
    let line = DelayLine::new(8);
    assert_eq!(line.read(), 0);
    assert_eq!(line.capacity(), 8);
    assert_eq!(line.length(), 8);
}

#[test]
fn block_round_trip() {
    let mut line = DelayLine::new(4);
    let input: Vec<i64> = vec![10, 20, 30, 40];
    line.write_block_and_advance(&input);
    let mut out: Vec<i64> = vec![0; 4];
    line.read_block(&mut out);
    assert_eq!(out, input);
}

#[test]
fn block_write_straddles_wraparound() {
    let mut line = DelayLine::new(4);
    // Advance the cursor so the next block write wraps past the end.
    line.write_and_advance(1);
    line.write_and_advance(2);
    let input: Vec<i64> = vec![3, 4, 5, 6];
    line.write_block_and_advance(&input);
    let mut out: Vec<i64> = vec![0; 4];
    line.read_block(&mut out);
    assert_eq!(out, input);
}

#[test]
fn fractional_read_interpolates() {
    let mut line = DelayLine::new(4);
    // Cursor returns to zero after four writes; data is [100, 200, 300, 400].
    for v in [100i64, 200, 300, 400] {
        line.write_and_advance(v);
    }
    // Offset 0 reads the sample at the cursor itself.
    assert_eq!(line.read_at_frac(0), 100);
    // Halfway between positions 1 and 2.
    assert_eq!(line.read_at_frac(UNIT + UNIT / 2), 250);
    // A quarter past position 2.
    assert_eq!(line.read_at_frac(2 * UNIT + UNIT / 4), 325);
}

#[test]
fn length_rescaling_clamps_to_one() {
    let mut line = DelayLine::new(100);
    line.set_length_fraction(UNIT / 2);
    assert_eq!(line.length(), 50);
    assert_eq!(line.capacity(), 100);
    line.set_length_fraction(0);
    assert_eq!(line.length(), 1);
    line.set_length_fraction(UNIT);
    assert_eq!(line.length(), 100);
}
