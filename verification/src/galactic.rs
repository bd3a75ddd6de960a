//! A nested-delay reverberator: three cascaded four-line difference-mixing
//! blocks per stereo channel, cross-channel feedback, a modulated short
//! pre-delay for detune, two low-pass stages, and an optional dither stage
//! standing in for the floating-point denormal guard such hardware needs.
//!
//! All state is Q16 fixed point; the delay lengths are fixed reference values
//! rescaled to the sample rate at initialization and to the size control per
//! block.

use vstd::prelude::*;

verus! {

use crate::GenState;
use crate::delay::DelayLine;
use crate::delay::DelayView;
use crate::delay::wrap;
use crate::fixed::SAMPLE_LIMIT;
use crate::fixed::UNIT;
use crate::fixed::clip;
use crate::fixed::clip_s;
use crate::fixed::isqrt64;
use crate::fixed::lp_step;
use crate::fixed::mul_gain;
use crate::fixed::one_pole;
use crate::fixed::qmul;
use crate::fixed::tdiv;
use crate::rng::random_u32_in;

/// Delay lines per stereo side: three blocks of four.
pub const DELAY_COUNT: usize = 12;

/// Capacity of the modulated pre-delay, in samples.
pub const DETUNE_CAPACITY: usize = 256;

/// Two pi in Q16.
pub const TAU_Q16: i64 = 411774;

/// Pi in Q16.
pub const PI_Q16: i64 = 205887;

/// Half pi in Q16.
pub const HALF_PI_Q16: i64 = 102944;

/// A sixteenth (0.0625) in Q16: the base of the regeneration gain.
pub const REGEN_BASE: i64 = 4096;

/// The attenuation scale (1.333) in Q16.
pub const ATTENUATE_SCALE: i64 = 87359;

/// The detune-to-drift scale (0.001) in Q16.
pub const DRIFT_SCALE: i64 = 66;

/// The size control's span (0.9) in Q16.
pub const SIZE_SCALE: i64 = 58982;

/// The size control's floor (0.1) in Q16.
pub const SIZE_BASE: i64 = 6554;

/// One eighth (0.125) in Q16: the wet sum's scale.
pub const EIGHTH: i64 = 8192;

/// The initial phase-speed seed (429496.7295 in Q16).
pub const OLDFPD_INIT: i64 = 28147497574;

/// The phase-speed base after a wrap (0.4294967295 in Q16).
pub const OLDFPD_BASE: i64 = 28148;

/// Divisor turning a dither word into the phase-speed increment.
pub const OLDFPD_DIV: i64 = 246853;

/// Smallest value a dither word is seeded with.
pub const FPD_MIN: u32 = 16386;

/// Divisor turning a dither word into a near-zero substitute sample.
pub const DITHER_DIV: u32 = 16777216;

/// Divisor of the exponent-scaled output noise (2^47).
pub const NOISE_DIV: i64 = 0x8000_0000_0000;

/// The reference delay length, in samples at 44100 Hz, of each line.
pub open spec fn ref_time(i: int) -> int {
    if i == 0 {
        6480
    } else if i == 1 {
        3660
    } else if i == 2 {
        1720
    } else if i == 3 {
        680
    } else if i == 4 {
        9700
    } else if i == 5 {
        6000
    } else if i == 6 {
        2320
    } else if i == 7 {
        940
    } else if i == 8 {
        15220
    } else if i == 9 {
        8460
    } else if i == 10 {
        4540
    } else {
        3200
    }
}

/// The reference delay length of line `i`.
pub fn reference_delay_time(i: usize) -> (r: usize)
    requires
        i < DELAY_COUNT,
    ensures
        r == ref_time(i as int),
        680 <= r <= 15220,
{
    if i == 0 {
        6480
    } else if i == 1 {
        3660
    } else if i == 2 {
        1720
    } else if i == 3 {
        680
    } else if i == 4 {
        9700
    } else if i == 5 {
        6000
    } else if i == 6 {
        2320
    } else if i == 7 {
        940
    } else if i == 8 {
        15220
    } else if i == 9 {
        8460
    } else if i == 10 {
        4540
    } else {
        3200
    }
}

/// A saturated value as a sample.
pub open spec fn clip_i64(x: int) -> i64 {
    clip_s(x) as i64
}

/// The parabolic half-wave: an approximation of `UNIT * sin(x / UNIT)` on
/// `[0, PI_Q16]`, exact at the ends and the peak.
pub open spec fn half_sine(x: int) -> int {
    ((4 * x * (PI_Q16 - x)) / (PI_Q16 as int)) * (UNIT as int) / (PI_Q16 as int)
}

/// The full-wave Q16 sine approximation on `[0, TAU_Q16 + HALF_PI_Q16]`.
pub open spec fn sine_q(phase: int) -> int {
    let x = if phase > TAU_Q16 {
        phase - TAU_Q16
    } else {
        phase
    };
    if x <= PI_Q16 {
        half_sine(x)
    } else {
        -half_sine(x - PI_Q16)
    }
}

/// The parabolic half-wave, bounded in `[0, UNIT]`.
fn half_sine_exec(x: i64) -> (r: i64)
    requires
        0 <= x <= PI_Q16,
    ensures
        r == half_sine(x as int),
        0 <= r <= UNIT,
{
    proof {
        assert(4 * x * (PI_Q16 - x) <= PI_Q16 * PI_Q16) by (nonlinear_arith)
            requires
                0 <= x <= PI_Q16,
        ;
        assert(4 * x * (PI_Q16 - x) >= 0) by (nonlinear_arith)
            requires
                0 <= x <= PI_Q16,
        ;
        assert(4 * (x as int) <= 4 * PI_Q16);
        assert((4 * x) * (PI_Q16 - x) == 4 * x * (PI_Q16 - x)) by (nonlinear_arith);
    }
    let num: u64 = 4 * (x as u64) * ((PI_Q16 - x) as u64);
    let a: u64 = num / (PI_Q16 as u64);
    proof {
        assert(a <= PI_Q16) by (nonlinear_arith)
            requires
                a == num as int / (PI_Q16 as int),
                num <= PI_Q16 * PI_Q16,
                PI_Q16 == 205887,
        ;
    }
    let r: u64 = a * (UNIT as u64) / (PI_Q16 as u64);
    proof {
        assert(a * UNIT <= PI_Q16 * UNIT) by (nonlinear_arith)
            requires
                0 <= a <= PI_Q16,
                UNIT == 65536,
        ;
        assert(r <= UNIT) by (nonlinear_arith)
            requires
                r == (a * UNIT) as int / (PI_Q16 as int),
                a * UNIT <= PI_Q16 * UNIT,
                a * UNIT >= 0,
                PI_Q16 == 205887,
                UNIT == 65536,
        ;
    }
    r as i64
}

/// The Q16 sine approximation, bounded in `[-UNIT, UNIT]`.
pub fn sine(phase: i64) -> (r: i64)
    requires
        0 <= phase <= TAU_Q16 + HALF_PI_Q16,
    ensures
        r == sine_q(phase as int),
        -UNIT <= r <= UNIT,
{
    let x: i64 = if phase > TAU_Q16 {
        phase - TAU_Q16
    } else {
        phase
    };
    if x <= PI_Q16 {
        half_sine_exec(x)
    } else {
        -half_sine_exec(x - PI_Q16)
    }
}

/// One xorshift step of a 32-bit dither word.
pub open spec fn xorshift(x: u32) -> u32 {
    let a = x ^ (x << 13u32);
    let b = a ^ (a >> 17u32);
    b ^ (b << 5u32)
}

/// One xorshift step, executable.
pub fn xorshift_step(x: u32) -> (r: u32)
    ensures
        r == xorshift(x),
{
    let a = x ^ (x << 13u32);
    let b = a ^ (a >> 17u32);
    b ^ (b << 5u32)
}

/// A power of two.
pub open spec fn p2(e: nat) -> int
    decreases e,
{
    if e == 0 {
        1
    } else {
        2 * p2((e - 1) as nat)
    }
}

/// The number of binary digits of a magnitude: `p2(bits(m) - 1) <= m <
/// p2(bits(m))` for positive `m`, and zero for zero.
pub open spec fn bits(m: nat) -> nat
    decreases m,
{
    if m == 0 {
        0
    } else {
        bits(m / 2) + 1
    }
}

/// `bits` brackets its argument between two powers of two.
proof fn lemma_bits_sandwich(m: nat)
    ensures
        m >= 1 ==> p2((bits(m) - 1) as nat) <= m && m < p2(bits(m)),
    decreases m,
{
    if m >= 1 {
        lemma_bits_sandwich(m / 2);
        let h = m / 2;
        if h == 0 {
            assert(bits(0nat) == 0);
            assert(bits(m) == 1);
            assert(p2(0) == 1);
            assert(p2(1) == 2 * p2(0));
        } else {
            assert(bits(m) == bits(h) + 1);
            assert(p2(bits(h)) == 2 * p2((bits(h) - 1) as nat));
            assert(p2((bits(h) + 1) as nat) == 2 * p2(bits(h)));
            assert(2 * h <= m < 2 * h + 2);
        }
    }
}

/// `p2` is monotone.
proof fn lemma_p2_mono(a: nat, b: nat)
    requires
        a <= b,
    ensures
        p2(a) <= p2(b),
    decreases b,
{
    if a < b {
        lemma_p2_mono(a, (b - 1) as nat);
        lemma_p2_pos((b - 1) as nat);
    }
}

/// The binary exponent of a sample: `bits` of its magnitude, and the
/// matching power of two; zero maps to `(0, 1)`.
pub fn frexp(s: i64) -> (r: (u32, i64))
    requires
        -SAMPLE_LIMIT <= s <= SAMPLE_LIMIT,
    ensures
        r.1 == p2(r.0 as nat),
        1 <= r.1 <= 2 * SAMPLE_LIMIT,
        r.0 == bits((if s >= 0 {
            s as int
        } else {
            -(s as int)
        }) as nat),
        s != 0 ==> (if s >= 0 {
            s as int
        } else {
            -(s as int)
        }) < r.1,
        s == 0 ==> r.0 == 0,
{
    let m: i64 = if s >= 0 {
        s
    } else {
        -s
    };
    let mut e: u32 = 0;
    let mut p: i64 = 1;
    while p <= m
        invariant
            p == p2(e as nat),
            1 <= p <= 2 * SAMPLE_LIMIT,
            0 <= m <= SAMPLE_LIMIT,
            e <= 51,
            e > 0 ==> p2((e - 1) as nat) <= m,
        decreases 2 * SAMPLE_LIMIT - p,
    {
        proof {
            assert(p2((e + 1) as nat) == 2 * p2(e as nat));
            if e == 51 {
                lemma_p2_51();
                assert(false);
            }
        }
        p = 2 * p;
        e = e + 1;
    }
    proof {
        if m == 0 && e > 0 {
            lemma_p2_pos((e - 1) as nat);
            assert(false);
        }
        lemma_bits_sandwich(m as nat);
        if m >= 1 {
            let bm = bits(m as nat);
            if (e as nat) < bm {
                lemma_p2_mono(e as nat, (bm - 1) as nat);
                assert(false);
            }
            if (e as nat) > bm {
                lemma_p2_mono(bm, (e - 1) as nat);
                assert(false);
            }
        }
    }
    (e, p)
}


/// The value of `p2` at 51, by unfolding the ladder.
proof fn lemma_p2_51()
    ensures
        p2(51) == 0x8_0000_0000_0000,
{
    assert(p2(0) == 1);
    assert(p2(1) == 2);
    assert(p2(2) == 4);
    assert(p2(3) == 8);
    assert(p2(4) == 16);
    assert(p2(5) == 32);
    assert(p2(6) == 64);
    assert(p2(7) == 128);
    assert(p2(8) == 256);
    assert(p2(9) == 512);
    assert(p2(10) == 1024);
    assert(p2(11) == 2048);
    assert(p2(12) == 4096);
    assert(p2(13) == 8192);
    assert(p2(14) == 16384);
    assert(p2(15) == 32768);
    assert(p2(16) == 65536);
    assert(p2(17) == 131072);
    assert(p2(18) == 262144);
    assert(p2(19) == 524288);
    assert(p2(20) == 1048576);
    assert(p2(21) == 2097152);
    assert(p2(22) == 4194304);
    assert(p2(23) == 8388608);
    assert(p2(24) == 16777216);
    assert(p2(25) == 33554432);
    assert(p2(26) == 67108864);
    assert(p2(27) == 134217728);
    assert(p2(28) == 268435456);
    assert(p2(29) == 536870912);
    assert(p2(30) == 1073741824);
    assert(p2(31) == 2147483648);
    assert(p2(32) == 4294967296);
    assert(p2(33) == 8589934592);
    assert(p2(34) == 17179869184);
    assert(p2(35) == 34359738368);
    assert(p2(36) == 68719476736);
    assert(p2(37) == 137438953472);
    assert(p2(38) == 274877906944);
    assert(p2(39) == 549755813888);
    assert(p2(40) == 1099511627776);
    assert(p2(41) == 2199023255552);
    assert(p2(42) == 4398046511104);
    assert(p2(43) == 8796093022208);
    assert(p2(44) == 17592186044416);
    assert(p2(45) == 35184372088832);
    assert(p2(46) == 70368744177664);
    assert(p2(47) == 140737488355328);
    assert(p2(48) == 281474976710656);
    assert(p2(49) == 562949953421312);
    assert(p2(50) == 1125899906842624);
    assert(p2(51) == 2251799813685248);
}

/// Powers of two are positive.
proof fn lemma_p2_pos(e: nat)
    ensures
        p2(e) >= 1,
    decreases e,
{
    if e > 0 {
        lemma_p2_pos((e - 1) as nat);
    }
}

/// The exponent-scaled output noise: the centred dither word, scaled by the
/// sample's binary magnitude, shrunk far below it.
pub open spec fn noise_of(fpd: u32, p: int) -> int {
    tdiv((fpd - 0x7fffffff) * p, NOISE_DIV as int)
}

/// Divide a non-negative wide value by the noise divisor.
fn div_noise(a: u128) -> (r: u128)
    ensures
        r == a as int / (NOISE_DIV as int),
{
    a / (NOISE_DIV as u128)
}

/// The exponent-scaled output noise, executable.
fn noise(fpd: u32, p: i64) -> (r: i64)
    requires
        1 <= p <= 2 * SAMPLE_LIMIT,
    ensures
        r == noise_of(fpd, p as int),
        -0x8_0000_0000 <= r <= 0x8_0000_0000,
{
    let d: i64 = (fpd as i64) - 0x7fffffff;
    proof {
        assert((if d >= 0 {
            d as int
        } else {
            -(d as int)
        }) * p <= 0x8000_0000 * (2 * SAMPLE_LIMIT)) by (nonlinear_arith)
            requires
                -0x8000_0000 <= d <= 0x8000_0000,
                1 <= p <= 2 * SAMPLE_LIMIT,
                SAMPLE_LIMIT == 0x4_0000_0000_0000,
        ;
        assert((if d >= 0 {
            d as int
        } else {
            -(d as int)
        }) * p >= 0) by (nonlinear_arith)
            requires
                1 <= p,
        ;
    }
    let mag: u128 = if d >= 0 {
        (d as u128) * (p as u128)
    } else {
        ((-d) as u128) * (p as u128)
    };
    proof {
        assert(mag == (if d >= 0 {
            d as int
        } else {
            -(d as int)
        }) * p);
    }
    proof {
        assert(mag <= 0x8000_0000 * (2 * 0x4_0000_0000_0000));
    }
    let q: u128 = div_noise(mag);
    proof {
        assert(q <= 0x8_0000_0000) by (nonlinear_arith)
            requires
                q == mag as int / (NOISE_DIV as int),
                0 <= mag <= 0x8000_0000 * (2 * 0x4_0000_0000_0000),
                NOISE_DIV == 0x8000_0000_0000,
        ;
    }
    if d >= 0 {
        q as i64
    } else {
        proof {
            assert(-(mag as int) == d * p) by (nonlinear_arith)
                requires
                    d < 0,
                    mag == -(d as int) * p,
            ;
        }
        -(q as i64)
    }
}

/// The four-point difference mix: each output is its input minus the other
/// three, i.e. twice the input minus the frame sum.
pub open spec fn dmix(s: Seq<int>) -> Seq<int> {
    Seq::new(4, |i: int| 2 * s[i] - (s[0] + s[1] + s[2] + s[3]))
}

/// The views of a bank of delay lines.
pub open spec fn dviews(v: Seq<DelayLine>) -> Seq<DelayView> {
    Seq::new(v.len(), |i: int| v[i]@)
}

/// The sample injected into a first-block line: the opposite channel's
/// feedback scaled by the regeneration gain, plus the incoming sample.
pub open spec fn inj_val(fb: i64, regen: int, sample: i64) -> i64 {
    clip_i64(qmul(fb as int, regen) + sample as int)
}

/// One side's pass through the three cascaded blocks: what the twelve lines
/// become, the new feedback frame, and the summed wet sample.
pub open spec fn cascade_spec(dl: Seq<DelayView>, fb: Seq<i64>, regen: int, sample: i64) -> (
    Seq<DelayView>,
    Seq<i64>,
    int,
) {
    let d0 = Seq::new(
        dl.len(),
        |i: int|
            if 0 <= i < 4 {
                dl[i].write_one(inj_val(fb[i], regen, sample))
            } else {
                dl[i]
            },
    );
    let b0 = Seq::new(4, |i: int| d0[i].read_sample() as int);
    let m0 = dmix(b0);
    let d4 = Seq::new(
        dl.len(),
        |i: int|
            if 4 <= i < 8 {
                d0[i].write_one(clip_i64(m0[i - 4]))
            } else {
                d0[i]
            },
    );
    let b1 = Seq::new(4, |i: int| d4[4 + i].read_sample() as int);
    let m1 = dmix(b1);
    let d8 = Seq::new(
        dl.len(),
        |i: int|
            if 8 <= i < 12 {
                d4[i].write_one(clip_i64(m1[i - 8]))
            } else {
                d4[i]
            },
    );
    let b2 = Seq::new(4, |i: int| d8[8 + i].read_sample() as int);
    let m2 = dmix(b2);
    let fbo = Seq::new(4, |i: int| clip_i64(m2[i]));
    let total = qmul(b2[0] + b2[1] + b2[2] + b2[3], EIGHTH as int);
    (d8, fbo, total)
}

/// Write `inj_val` of each feedback word into four consecutive lines.
#[verifier::loop_isolation(false)]
fn inject_four(delays: &mut Vec<DelayLine>, base: usize, fb: &Vec<i64>, regen: i64, sample: i64)
    requires
        old(delays)@.len() == DELAY_COUNT,
        base + 4 <= DELAY_COUNT,
        fb@.len() == 4,
        forall|i: int| 0 <= i < 4 ==> -SAMPLE_LIMIT <= #[trigger] fb@[i] <= SAMPLE_LIMIT,
        0 <= regen <= UNIT,
        -SAMPLE_LIMIT <= sample <= SAMPLE_LIMIT,
        forall|i: int|
            0 <= i < DELAY_COUNT ==> (#[trigger] old(delays)@[i]@).wf() && old(
                delays,
            )@[i]@.bounded(SAMPLE_LIMIT as int),
    ensures
        final(delays)@.len() == DELAY_COUNT,
        forall|i: int|
            0 <= i < DELAY_COUNT ==> #[trigger] final(delays)@[i]@ == (if base <= i < base + 4 {
                old(delays)@[i]@.write_one(inj_val(fb@[i - base], regen as int, sample))
            } else {
                old(delays)@[i]@
            }),
        forall|i: int|
            0 <= i < DELAY_COUNT ==> (#[trigger] final(delays)@[i]@).wf()
                && final(delays)@[i]@.bounded(SAMPLE_LIMIT as int),
{
    let mut i: usize = 0;
    while i < 4
        invariant
            i <= 4,
            delays@.len() == DELAY_COUNT,
            forall|j: int|
                0 <= j < DELAY_COUNT ==> #[trigger] delays@[j]@ == (if base <= j < base + i {
                    old(delays)@[j]@.write_one(inj_val(fb@[j - base], regen as int, sample))
                } else {
                    old(delays)@[j]@
                }),
            forall|j: int|
                0 <= j < DELAY_COUNT ==> (#[trigger] delays@[j]@).wf() && delays@[j]@.bounded(
                    SAMPLE_LIMIT as int,
                ),
        decreases 4 - i,
    {
        let g = mul_gain(fb[i], regen);
        proof {
            crate::fixed::lemma_gain_bounded(fb@[i as int] as int, regen as int);
        }
        let v = clip(g + sample);
        proof {
            assert(v == inj_val(fb@[i as int], regen as int, sample));
        }
        let ghost before = delays@;
        let line = &mut delays[base + i];
        line.write_and_advance(v);
        proof {
            assert forall|j: int|
                0 <= j < DELAY_COUNT && j != base + i implies #[trigger] delays@[j]@
                == before[j]@ by {}
            assert(delays@[base + i as int]@ == before[base + i as int]@.write_one(v));
            assert(delays@[base + i as int]@.bounded(SAMPLE_LIMIT as int));
        }
        i += 1;
    }
}

/// Read four consecutive lines into the frame buffer.
#[verifier::loop_isolation(false)]
fn read_four(delays: &Vec<DelayLine>, base: usize, out: &mut Vec<i64>)
    requires
        delays@.len() == DELAY_COUNT,
        base + 4 <= DELAY_COUNT,
        old(out)@.len() == 4,
        forall|i: int|
            0 <= i < DELAY_COUNT ==> (#[trigger] delays@[i]@).wf() && delays@[i]@.bounded(
                SAMPLE_LIMIT as int,
            ),
    ensures
        final(out)@.len() == 4,
        forall|i: int|
            0 <= i < 4 ==> #[trigger] final(out)@[i] == delays@[base + i]@.read_sample(),
        forall|i: int| 0 <= i < 4 ==> -SAMPLE_LIMIT <= #[trigger] final(out)@[i] <= SAMPLE_LIMIT,
{
    let mut i: usize = 0;
    while i < 4
        invariant
            i <= 4,
            out@.len() == 4,
            forall|j: int|
                0 <= j < i ==> #[trigger] out@[j] == delays@[base + j]@.read_sample(),
            forall|j: int| 0 <= j < i ==> -SAMPLE_LIMIT <= #[trigger] out@[j] <= SAMPLE_LIMIT,
        decreases 4 - i,
    {
        let line = &delays[base + i];
        let v = line.read();
        out[i] = v;
        i += 1;
    }
}

/// The difference mix of a four-sample frame, into the mix buffer.
#[verifier::loop_isolation(false)]
fn mix_four(vals: &Vec<i64>, out: &mut Vec<i64>)
    requires
        vals@.len() == 4,
        old(out)@.len() == 4,
        forall|i: int| 0 <= i < 4 ==> -SAMPLE_LIMIT <= #[trigger] vals@[i] <= SAMPLE_LIMIT,
    ensures
        final(out)@.len() == 4,
        forall|i: int|
            0 <= i < 4 ==> #[trigger] final(out)@[i] as int == dmix(crate::mixer::ints(vals@))[i],
        forall|i: int|
            0 <= i < 4 ==> -6 * SAMPLE_LIMIT <= #[trigger] final(out)@[i] <= 6 * SAMPLE_LIMIT,
{
    let total = vals[0] + vals[1] + vals[2] + vals[3];
    let mut i: usize = 0;
    while i < 4
        invariant
            i <= 4,
            out@.len() == 4,
            total == vals@[0] + vals@[1] + vals@[2] + vals@[3],
            forall|j: int|
                0 <= j < i ==> #[trigger] out@[j] as int == dmix(crate::mixer::ints(vals@))[j],
            forall|j: int|
                0 <= j < i ==> -6 * SAMPLE_LIMIT <= #[trigger] out@[j] <= 6 * SAMPLE_LIMIT,
        decreases 4 - i,
    {
        let v = 2 * vals[i] - total;
        proof {
            assert(v as int == dmix(crate::mixer::ints(vals@))[i as int]);
        }
        out[i] = v;
        i += 1;
    }
}

/// Write the saturated mix into four consecutive lines.
#[verifier::loop_isolation(false)]
fn write_four(delays: &mut Vec<DelayLine>, base: usize, vals: &Vec<i64>)
    requires
        old(delays)@.len() == DELAY_COUNT,
        base + 4 <= DELAY_COUNT,
        vals@.len() == 4,
        forall|i: int|
            0 <= i < DELAY_COUNT ==> (#[trigger] old(delays)@[i]@).wf() && old(
                delays,
            )@[i]@.bounded(SAMPLE_LIMIT as int),
    ensures
        final(delays)@.len() == DELAY_COUNT,
        forall|i: int|
            0 <= i < DELAY_COUNT ==> #[trigger] final(delays)@[i]@ == (if base <= i < base + 4 {
                old(delays)@[i]@.write_one(clip_i64(vals@[i - base] as int))
            } else {
                old(delays)@[i]@
            }),
        forall|i: int|
            0 <= i < DELAY_COUNT ==> (#[trigger] final(delays)@[i]@).wf()
                && final(delays)@[i]@.bounded(SAMPLE_LIMIT as int),
{
    let mut i: usize = 0;
    while i < 4
        invariant
            i <= 4,
            delays@.len() == DELAY_COUNT,
            forall|j: int|
                0 <= j < DELAY_COUNT ==> #[trigger] delays@[j]@ == (if base <= j < base + i {
                    old(delays)@[j]@.write_one(clip_i64(vals@[j - base] as int))
                } else {
                    old(delays)@[j]@
                }),
            forall|j: int|
                0 <= j < DELAY_COUNT ==> (#[trigger] delays@[j]@).wf() && delays@[j]@.bounded(
                    SAMPLE_LIMIT as int,
                ),
        decreases 4 - i,
    {
        let v = clip(vals[i]);
        let ghost before = delays@;
        let line = &mut delays[base + i];
        line.write_and_advance(v);
        proof {
            assert forall|j: int|
                0 <= j < DELAY_COUNT && j != base + i implies #[trigger] delays@[j]@
                == before[j]@ by {}
            assert(delays@[base + i as int]@ == before[base + i as int]@.write_one(v));
            assert(delays@[base + i as int]@.bounded(SAMPLE_LIMIT as int));
        }
        i += 1;
    }
}

/// One side's pass through the three cascaded blocks: the new feedback
/// frame lands in `fb_out`, the summed wet sample is returned, and the two
/// frame buffers serve as working space, so nothing allocates.
#[verifier::loop_isolation(false)]
fn cascade(
    delays: &mut Vec<DelayLine>,
    fb: &Vec<i64>,
    regen: i64,
    sample: i64,
    buf_read: &mut Vec<i64>,
    buf_mix: &mut Vec<i64>,
    fb_out: &mut Vec<i64>,
) -> (wet: i64)
    requires
        old(delays)@.len() == DELAY_COUNT,
        fb@.len() == 4,
        old(buf_read)@.len() == 4,
        old(buf_mix)@.len() == 4,
        old(fb_out)@.len() == 4,
        forall|i: int| 0 <= i < 4 ==> -SAMPLE_LIMIT <= #[trigger] fb@[i] <= SAMPLE_LIMIT,
        0 <= regen <= UNIT,
        -SAMPLE_LIMIT <= sample <= SAMPLE_LIMIT,
        forall|i: int|
            0 <= i < DELAY_COUNT ==> (#[trigger] old(delays)@[i]@).wf() && old(
                delays,
            )@[i]@.bounded(SAMPLE_LIMIT as int),
    ensures
        final(delays)@.len() == DELAY_COUNT,
        forall|i: int|
            0 <= i < DELAY_COUNT ==> (#[trigger] final(delays)@[i]@).wf()
                && final(delays)@[i]@.bounded(SAMPLE_LIMIT as int),
        dviews(final(delays)@) == cascade_spec(
            dviews(old(delays)@),
            fb@,
            regen as int,
            sample,
        ).0,
        final(fb_out)@ == cascade_spec(dviews(old(delays)@), fb@, regen as int, sample).1,
        wet as int == cascade_spec(dviews(old(delays)@), fb@, regen as int, sample).2,
        final(buf_read)@.len() == 4,
        final(buf_mix)@.len() == 4,
        final(fb_out)@.len() == 4,
        forall|i: int| 0 <= i < 4 ==> -SAMPLE_LIMIT <= #[trigger] final(fb_out)@[i] <= SAMPLE_LIMIT,
        -SAMPLE_LIMIT <= wet <= SAMPLE_LIMIT,
{
    let ghost spec_result = cascade_spec(dviews(old(delays)@), fb@, regen as int, sample);
    inject_four(delays, 0, fb, regen, sample);
    proof {
        let d0 = Seq::new(
            dviews(old(delays)@).len(),
            |i: int|
                if 0 <= i < 4 {
                    dviews(old(delays)@)[i].write_one(inj_val(fb@[i], regen as int, sample))
                } else {
                    dviews(old(delays)@)[i]
                },
        );
        assert(dviews(delays@) =~= d0);
    }
    read_four(delays, 0, buf_read);
    let ghost b0 = buf_read@;
    mix_four(buf_read, buf_mix);
    let ghost m0 = buf_mix@;
    proof {
        let d0 = Seq::new(
            dviews(old(delays)@).len(),
            |i: int|
                if 0 <= i < 4 {
                    dviews(old(delays)@)[i].write_one(inj_val(fb@[i], regen as int, sample))
                } else {
                    dviews(old(delays)@)[i]
                },
        );
        assert(crate::mixer::ints(b0) =~= Seq::new(4, |i: int| d0[i].read_sample() as int));
    }
    let ghost st1 = dviews(delays@);
    write_four(delays, 4, buf_mix);
    proof {
        let d0 = st1;
        let b0s = Seq::new(4, |i: int| d0[i].read_sample() as int);
        let m0s = dmix(b0s);
        let d4 = Seq::new(
            d0.len(),
            |i: int|
                if 4 <= i < 8 {
                    d0[i].write_one(clip_i64(m0s[i - 4]))
                } else {
                    d0[i]
                },
        );
        assert forall|i: int| 0 <= i < DELAY_COUNT implies #[trigger] dviews(delays@)[i]
            == d4[i] by {
            if 4 <= i < 8 {
                assert(m0[i - 4] as int == m0s[i - 4]);
                assert(clip_i64(m0[i - 4] as int) == clip_i64(m0s[i - 4]));
            }
        }
        assert(dviews(delays@) =~= d4);
    }
    read_four(delays, 4, buf_read);
    let ghost b1 = buf_read@;
    mix_four(buf_read, buf_mix);
    let ghost m1 = buf_mix@;
    let ghost st2 = dviews(delays@);
    proof {
        assert(crate::mixer::ints(b1) =~= Seq::new(4, |i: int| st2[4 + i].read_sample() as int));
    }
    write_four(delays, 8, buf_mix);
    proof {
        let d4 = st2;
        let b1s = Seq::new(4, |i: int| d4[4 + i].read_sample() as int);
        let m1s = dmix(b1s);
        let d8 = Seq::new(
            d4.len(),
            |i: int|
                if 8 <= i < 12 {
                    d4[i].write_one(clip_i64(m1s[i - 8]))
                } else {
                    d4[i]
                },
        );
        assert forall|i: int| 0 <= i < DELAY_COUNT implies #[trigger] dviews(delays@)[i]
            == d8[i] by {
            if 8 <= i < 12 {
                assert(m1[i - 8] as int == m1s[i - 8]);
            }
        }
        assert(dviews(delays@) =~= d8);
    }
    read_four(delays, 8, buf_read);
    let ghost b2 = buf_read@;
    mix_four(buf_read, buf_mix);
    let ghost m2 = buf_mix@;
    proof {
        assert(crate::mixer::ints(b2) =~= Seq::new(
            4,
            |i: int| dviews(delays@)[8 + i].read_sample() as int,
        ));
    }
    let mut i: usize = 0;
    while i < 4
        invariant
            i <= 4,
            fb_out@.len() == 4,
            buf_mix@.len() == 4,
            buf_mix@ == m2,
            forall|j: int|
                0 <= j < i ==> #[trigger] fb_out@[j] == clip_i64(m2[j] as int),
            forall|j: int| 0 <= j < i ==> -SAMPLE_LIMIT <= #[trigger] fb_out@[j] <= SAMPLE_LIMIT,
        decreases 4 - i,
    {
        let v = clip(buf_mix[i]);
        fb_out[i] = v;
        i += 1;
    }
    let total = buf_read[0] + buf_read[1] + buf_read[2] + buf_read[3];
    let wet = mul_gain(total, EIGHTH);
    proof {
        crate::fixed::lemma_gain_bounded(total as int, EIGHTH as int);
        let b2s = Seq::new(4, |i: int| dviews(delays@)[8 + i].read_sample() as int);
        assert(total as int == b2s[0] + b2s[1] + b2s[2] + b2s[3]);
        assert(fb_out@ =~= spec_result.1);
        assert(dviews(delays@) =~= spec_result.0);
    }
    wet
}

/// Mathematical state of the reverberator.
pub struct GalacticView {
    pub delays_left: Seq<DelayView>,
    pub delays_right: Seq<DelayView>,
    pub feedback_left: Seq<i64>,
    pub feedback_right: Seq<i64>,
    pub detune_left: DelayView,
    pub detune_right: DelayView,
    pub fpd_l: u32,
    pub fpd_r: u32,
    pub oldfpd: i64,
    pub vib_m: i64,
    pub iir_a_l: i64,
    pub iir_a_r: i64,
    pub iir_b_l: i64,
    pub iir_b_r: i64,
    pub dither: bool,
}

impl GalacticView {
    pub open spec fn wf(self) -> bool {
        &&& self.delays_left.len() == DELAY_COUNT
        &&& self.delays_right.len() == DELAY_COUNT
        &&& forall|i: int|
            0 <= i < DELAY_COUNT ==> (#[trigger] self.delays_left[i]).wf()
                && self.delays_left[i].bounded(SAMPLE_LIMIT as int)
        &&& forall|i: int|
            0 <= i < DELAY_COUNT ==> (#[trigger] self.delays_right[i]).wf()
                && self.delays_right[i].bounded(SAMPLE_LIMIT as int)
        &&& self.feedback_left.len() == 4
        &&& self.feedback_right.len() == 4
        &&& forall|i: int|
            0 <= i < 4 ==> -SAMPLE_LIMIT <= #[trigger] self.feedback_left[i] <= SAMPLE_LIMIT
        &&& forall|i: int|
            0 <= i < 4 ==> -SAMPLE_LIMIT <= #[trigger] self.feedback_right[i] <= SAMPLE_LIMIT
        &&& self.detune_left.wf()
        &&& self.detune_left.bounded(SAMPLE_LIMIT as int)
        &&& self.detune_left.cap() == DETUNE_CAPACITY
        &&& self.detune_right.wf()
        &&& self.detune_right.bounded(SAMPLE_LIMIT as int)
        &&& self.detune_right.cap() == DETUNE_CAPACITY
        &&& -SAMPLE_LIMIT <= self.iir_a_l <= SAMPLE_LIMIT
        &&& -SAMPLE_LIMIT <= self.iir_a_r <= SAMPLE_LIMIT
        &&& -SAMPLE_LIMIT <= self.iir_b_l <= SAMPLE_LIMIT
        &&& -SAMPLE_LIMIT <= self.iir_b_r <= SAMPLE_LIMIT
        &&& 0 <= self.vib_m <= TAU_Q16
        &&& 0 <= self.oldfpd <= OLDFPD_INIT
    }

    /// State after every delay line is rescaled to the Q16 size fraction.
    pub open spec fn rescaled(self, frac: int) -> GalacticView {
        GalacticView {
            delays_left: Seq::new(
                self.delays_left.len(),
                |i: int| resized(self.delays_left[i], frac),
            ),
            delays_right: Seq::new(
                self.delays_right.len(),
                |i: int| resized(self.delays_right[i], frac),
            ),
            ..self
        }
    }
}

/// One delay line with its active length rescaled.
pub open spec fn resized(d: DelayView, frac: int) -> DelayView {
    DelayView { data: d.data, pos: d.pos, len: d.scaled_len(frac) }
}

/// The per-block control values, shaped for the Q16 pipeline.
#[derive(Clone, Copy, PartialEq, Eq, Structural, Debug)]
pub struct GalacticParams {
    pub regen: i64,
    pub attenuate: i64,
    pub lowpass: i64,
    pub drift: i64,
    pub size_frac: i64,
    pub wet: i64,
}

/// The ranges every derived parameter stays in.
pub open spec fn params_wf(p: GalacticParams) -> bool {
    &&& 0 <= p.regen <= UNIT
    &&& 0 <= p.attenuate <= UNIT
    &&& 0 <= p.lowpass <= UNIT
    &&& 0 <= p.drift <= DRIFT_SCALE
    &&& SIZE_BASE <= p.size_frac <= UNIT
    &&& 0 <= p.wet <= UNIT
}

/// The parameter derivation: regeneration and attenuation from the replace
/// control, the squared-brightness low-pass coefficient scaled by the inverse
/// square root of the rate ratio, the cubic detune drift, the affine size
/// fraction, and the cubic-taper wet amount.
pub open spec fn params_spec(
    size: i64,
    replace: i64,
    brightness: i64,
    detune: i64,
    mix: i64,
    sample_rate: u32,
) -> GalacticParams {
    let regen = REGEN_BASE + qmul((UNIT - replace) as int, REGEN_BASE as int);
    let atten = qmul(UNIT - 8 * regen, ATTENUATE_SCALE as int);
    let t = if brightness >= UNIT {
        UNIT as int
    } else {
        brightness + 1
    };
    let sq = qmul(t, t);
    let os = (sample_rate * UNIT) as int / 44100;
    let sqrt_os = crate::fixed::isqrt_spec((os * UNIT) as nat) as int;
    let lp0 = (sq * UNIT) / sqrt_os;
    let lp = if lp0 > UNIT {
        UNIT as int
    } else {
        lp0
    };
    let d2 = qmul(detune as int, detune as int);
    let d3 = qmul(d2, detune as int);
    let drift = qmul(d3, DRIFT_SCALE as int);
    let size_frac = qmul(size as int, SIZE_SCALE as int) + SIZE_BASE;
    let om = (UNIT - mix) as int;
    let wet = UNIT - qmul(qmul(om, om), om);
    GalacticParams {
        regen: regen as i64,
        attenuate: atten as i64,
        lowpass: lp as i64,
        drift: drift as i64,
        size_frac: size_frac as i64,
        wet: wet as i64,
    }
}

/// Derive the per-block parameters from the raw Q16 controls.
pub fn derive_params(
    size: i64,
    replace: i64,
    brightness: i64,
    detune: i64,
    mix: i64,
    sample_rate: u32,
) -> (p: GalacticParams)
    requires
        0 <= size <= UNIT,
        0 <= replace <= UNIT,
        0 <= brightness <= UNIT,
        0 <= detune <= UNIT,
        0 <= mix <= UNIT,
        8000 <= sample_rate <= 192000,
    ensures
        p == params_spec(size, replace, brightness, detune, mix, sample_rate),
        params_wf(p),
        mix == 0 ==> p.wet == 0,
        mix == UNIT ==> p.wet == UNIT,
{
    let r0 = mul_gain(UNIT - replace, REGEN_BASE);
    proof {
        crate::fixed::lemma_gain_bounded((UNIT - replace) as int, REGEN_BASE as int);
        assert(qmul((UNIT - replace) as int, REGEN_BASE as int) <= REGEN_BASE) by (nonlinear_arith)
            requires
                r0 == qmul((UNIT - replace) as int, REGEN_BASE as int),
                r0 >= 0,
                r0 <= UNIT - replace,
                0 <= UNIT - replace <= UNIT,
                r0 <= (UNIT - replace) * REGEN_BASE / (UNIT as int),
                UNIT == 65536,
                REGEN_BASE == 4096,
        ;
    }
    let regen = REGEN_BASE + r0;
    let atten = mul_gain(UNIT - 8 * regen, ATTENUATE_SCALE);
    proof {
        assert(0 <= UNIT - 8 * regen <= 32768);
        assert(atten <= UNIT) by (nonlinear_arith)
            requires
                atten == qmul((UNIT - 8 * regen) as int, ATTENUATE_SCALE as int),
                atten <= (UNIT - 8 * regen) * ATTENUATE_SCALE / (UNIT as int),
                0 <= UNIT - 8 * regen <= 32768,
                UNIT == 65536,
                ATTENUATE_SCALE == 87359,
        ;
        assert(atten >= 0) by (nonlinear_arith)
            requires
                atten == qmul((UNIT - 8 * regen) as int, ATTENUATE_SCALE as int),
                0 <= UNIT - 8 * regen,
                ATTENUATE_SCALE >= 0,
                UNIT == 65536,
        ;
    }
    let t: i64 = if brightness >= UNIT {
        UNIT
    } else {
        brightness + 1
    };
    let sq = mul_gain(t, t);
    proof {
        crate::fixed::lemma_gain_bounded(t as int, t as int);
    }
    let os64: u64 = (sample_rate as u64) * (UNIT as u64) / 44100;
    proof {
        assert(os64 >= 1) by (nonlinear_arith)
            requires
                os64 == (sample_rate * UNIT) as int / 44100,
                sample_rate * UNIT >= 44100,
        ;
        assert(os64 <= 300000) by (nonlinear_arith)
            requires
                os64 == (sample_rate * UNIT) as int / 44100,
                0 <= sample_rate * UNIT <= 192000 * 65536,
        ;
    }
    let sqrt_os: u64 = isqrt64(os64 * (UNIT as u64));
    proof {
        assert(sqrt_os >= 1) by (nonlinear_arith)
            requires
                sqrt_os * sqrt_os <= os64 * UNIT,
                (sqrt_os + 1) * (sqrt_os + 1) > os64 * UNIT,
                os64 * UNIT >= 65536,
        ;
        assert(sqrt_os <= 200000) by (nonlinear_arith)
            requires
                sqrt_os * sqrt_os <= os64 * UNIT,
                os64 * UNIT <= 300000 * 65536,
        ;
    }
    let lp0: u64 = ((sq as u64) * (UNIT as u64)) / sqrt_os;
    let lp: i64 = if lp0 > (UNIT as u64) {
        UNIT
    } else {
        lp0 as i64
    };
    proof {
        assert(lp0 == (sq * UNIT) as int / (sqrt_os as int));
        assert(lp as int == params_spec(size, replace, brightness, detune, mix, sample_rate).lowpass);
    }
    let d2 = mul_gain(detune, detune);
    proof {
        crate::fixed::lemma_gain_bounded(detune as int, detune as int);
    }
    let d3 = mul_gain(d2, detune);
    proof {
        crate::fixed::lemma_gain_bounded(d2 as int, detune as int);
    }
    let drift = mul_gain(d3, DRIFT_SCALE);
    proof {
        assert(0 <= d3 <= UNIT);
        assert(drift <= DRIFT_SCALE) by (nonlinear_arith)
            requires
                drift == qmul(d3 as int, DRIFT_SCALE as int),
                drift <= d3 * DRIFT_SCALE / (UNIT as int),
                0 <= d3 <= UNIT,
                UNIT == 65536,
                DRIFT_SCALE == 66,
        ;
        assert(drift >= 0) by (nonlinear_arith)
            requires
                drift == qmul(d3 as int, DRIFT_SCALE as int),
                d3 >= 0,
                DRIFT_SCALE >= 0,
                UNIT == 65536,
        ;
    }
    let s0 = mul_gain(size, SIZE_SCALE);
    proof {
        crate::fixed::lemma_gain_bounded(size as int, SIZE_SCALE as int);
        assert(s0 <= SIZE_SCALE) by (nonlinear_arith)
            requires
                s0 == qmul(size as int, SIZE_SCALE as int),
                s0 <= size * SIZE_SCALE / (UNIT as int),
                0 <= size <= UNIT,
                UNIT == 65536,
                SIZE_SCALE == 58982,
        ;
    }
    let size_frac = s0 + SIZE_BASE;
    let om = UNIT - mix;
    let o2 = mul_gain(om, om);
    proof {
        crate::fixed::lemma_gain_bounded(om as int, om as int);
    }
    let o3 = mul_gain(o2, om);
    proof {
        crate::fixed::lemma_gain_bounded(o2 as int, om as int);
    }
    let wet = UNIT - o3;
    proof {
        if mix == 0 {
            assert(qmul(65536, 65536) == 65536);
        }
        if mix == UNIT {
            assert(qmul(0, 0) == 0);
            assert(qmul(0, 0int) == 0);
        }
    }
    GalacticParams { regen, attenuate: atten, lowpass: lp, drift, size_frac, wet }
}

/// The near-zero substitute a silent input is replaced with when the dither
/// stage is on: a tiny positive value drawn from the dither word.
pub open spec fn sub_sample(fpd: u32) -> i64 {
    (fpd / DITHER_DIV) as i64
}

/// The sample the dry path carries: the input itself, or its substitute.
pub open spec fn dry_of(dither: bool, fpd: u32, x: i64) -> i64 {
    if dither && x == 0 {
        sub_sample(fpd)
    } else {
        x
    }
}

/// The advanced modulation phase and the next phase-speed seed.
pub open spec fn vib_next(v: GalacticView, drift: i64) -> (int, int) {
    let vib1 = v.vib_m + qmul(v.oldfpd as int, drift as int);
    if vib1 > TAU_Q16 {
        (0, OLDFPD_BASE + (v.fpd_l as int) / (OLDFPD_DIV as int))
    } else {
        (vib1, v.oldfpd as int)
    }
}

/// A linearly interpolated read at a Q16 offset forward of the write cursor.
pub open spec fn interp_at(d: DelayView, off: int) -> int {
    let fl = off / (UNIT as int);
    let fr = off % (UNIT as int);
    let a = d.data[wrap(d.cap(), d.pos + fl)] as int;
    let b = d.data[wrap(d.cap(), d.pos + fl + 1)] as int;
    a + qmul(b - a, fr)
}

/// The wet/dry cross-fade; at full wet the dry term is skipped entirely.
pub open spec fn crossfade(wet_s: int, dry: i64, wet: i64) -> int {
    if wet < UNIT {
        clip_s(qmul(wet_s, wet as int) + qmul(dry as int, (UNIT - wet) as int))
    } else {
        wet_s
    }
}

/// The dithered output: the cross-faded sample plus the exponent-scaled
/// noise, when the dither stage is on.
pub open spec fn dithered(dither: bool, fpd2: u32, cf: int) -> int {
    if dither {
        let m = (if cf >= 0 {
            cf
        } else {
            -cf
        }) as nat;
        clip_s(cf + noise_of(fpd2, p2(bits(m))))
    } else {
        cf
    }
}

/// One whole sample of the engine: the next state, the left output and the
/// right output.
pub open spec fn step_full(v: GalacticView, in_l: i64, in_r: i64, p: GalacticParams) -> (
    GalacticView,
    int,
    int,
) {
    let dry_l = dry_of(v.dither, v.fpd_l, in_l);
    let dry_r = dry_of(v.dither, v.fpd_r, in_r);
    let vib = vib_next(v, p.drift);
    let det_l = v.detune_left.write_one(clip_i64(qmul(dry_l as int, p.attenuate as int)));
    let det_r = v.detune_right.write_one(clip_i64(qmul(dry_r as int, p.attenuate as int)));
    let off_l = (sine_q(vib.0) + UNIT) * 127;
    let off_r = (sine_q(vib.0 + HALF_PI_Q16) + UNIT) * 127;
    let iira_l = lp_step(v.iir_a_l as int, interp_at(det_l, off_l), p.lowpass as int);
    let iira_r = lp_step(v.iir_a_r as int, interp_at(det_r, off_r), p.lowpass as int);
    let cl = cascade_spec(v.delays_left, v.feedback_right, p.regen as int, clip_i64(iira_l));
    let cr = cascade_spec(v.delays_right, v.feedback_left, p.regen as int, clip_i64(iira_r));
    let iirb_l = lp_step(v.iir_b_l as int, cl.2, p.lowpass as int);
    let iirb_r = lp_step(v.iir_b_r as int, cr.2, p.lowpass as int);
    let fpd_l2 = if v.dither {
        xorshift(v.fpd_l)
    } else {
        v.fpd_l
    };
    let fpd_r2 = if v.dither {
        xorshift(v.fpd_r)
    } else {
        v.fpd_r
    };
    let cf_l = crossfade(iirb_l, dry_l, p.wet);
    let cf_r = crossfade(iirb_r, dry_r, p.wet);
    let next = GalacticView {
        delays_left: cl.0,
        delays_right: cr.0,
        feedback_left: cl.1,
        feedback_right: cr.1,
        detune_left: det_l,
        detune_right: det_r,
        fpd_l: fpd_l2,
        fpd_r: fpd_r2,
        oldfpd: vib.1 as i64,
        vib_m: vib.0 as i64,
        iir_a_l: clip_i64(iira_l),
        iir_a_r: clip_i64(iira_r),
        iir_b_l: clip_i64(iirb_l),
        iir_b_r: clip_i64(iirb_r),
        dither: v.dither,
    };
    (next, dithered(v.dither, fpd_l2, cf_l), dithered(v.dither, fpd_r2, cf_r))
}

/// The state after the first `f` samples of a block.
pub open spec fn gstate_at(
    v: GalacticView,
    left: Seq<i64>,
    right: Seq<i64>,
    p: GalacticParams,
    f: int,
) -> GalacticView
    decreases f,
{
    if f <= 0 {
        v
    } else {
        step_full(gstate_at(v, left, right, p, f - 1), left[f - 1], right[f - 1], p).0
    }
}


/// The nested-delay reverberation engine.
pub struct Galactic {
    delays_left: Vec<DelayLine>,
    delays_right: Vec<DelayLine>,
    feedback_left: Vec<i64>,
    feedback_right: Vec<i64>,
    detune_delay_left: DelayLine,
    detune_delay_right: DelayLine,
    fpd_l: u32,
    fpd_r: u32,
    oldfpd: i64,
    vib_m: i64,
    iir_a_l: i64,
    iir_a_r: i64,
    iir_b_l: i64,
    iir_b_r: i64,
    dither: bool,
    frame_read: Vec<i64>,
    frame_mix: Vec<i64>,
    fb_scratch: Vec<i64>,
}

impl View for Galactic {
    type V = GalacticView;

    closed spec fn view(&self) -> GalacticView {
        GalacticView {
            delays_left: dviews(self.delays_left@),
            delays_right: dviews(self.delays_right@),
            feedback_left: self.feedback_left@,
            feedback_right: self.feedback_right@,
            detune_left: self.detune_delay_left@,
            detune_right: self.detune_delay_right@,
            fpd_l: self.fpd_l,
            fpd_r: self.fpd_r,
            oldfpd: self.oldfpd,
            vib_m: self.vib_m,
            iir_a_l: self.iir_a_l,
            iir_a_r: self.iir_a_r,
            iir_b_l: self.iir_b_l,
            iir_b_r: self.iir_b_r,
            dither: self.dither,
        }
    }
}

impl Galactic {
    /// The per-sample working buffers hold one four-line frame each, so
    /// processing never allocates.
    pub closed spec fn scratch_ok(&self) -> bool {
        &&& self.frame_read@.len() == 4
        &&& self.frame_mix@.len() == 4
        &&& self.fb_scratch@.len() == 4
    }

    /// An engine with the given dither seeds and dither setting; delay
    /// lengths are placeholders until `init` rescales them.
    pub fn from_state(fpd_l: u32, fpd_r: u32, dither: bool) -> (r: Galactic)
        ensures
            r@.wf(),
            r@.fpd_l == fpd_l,
            r@.fpd_r == fpd_r,
            r@.dither == dither,
            r@.oldfpd == OLDFPD_INIT,
            r@.vib_m == 3 * UNIT,
            r@.iir_a_l == 0 && r@.iir_a_r == 0 && r@.iir_b_l == 0 && r@.iir_b_r == 0,
            forall|i: int| 0 <= i < 4 ==> #[trigger] r@.feedback_left[i] == 0i64,
            forall|i: int| 0 <= i < 4 ==> #[trigger] r@.feedback_right[i] == 0i64,
            r.scratch_ok(),
    {
        let mut delays_left: Vec<DelayLine> = Vec::new();
        let mut delays_right: Vec<DelayLine> = Vec::new();
        let mut i: usize = 0;
        while i < DELAY_COUNT
            invariant
                i <= DELAY_COUNT,
                delays_left@.len() == i,
                delays_right@.len() == i,
                forall|k: int|
                    0 <= k < i ==> (#[trigger] delays_left@[k]@).wf() && delays_left@[k]@.bounded(
                        SAMPLE_LIMIT as int,
                    ),
                forall|k: int|
                    0 <= k < i ==> (#[trigger] delays_right@[k]@).wf() && delays_right@[k]@.bounded(
                        SAMPLE_LIMIT as int,
                    ),
            decreases DELAY_COUNT - i,
        {
            delays_left.push(DelayLine::new(1));
            delays_right.push(DelayLine::new(1));
            i += 1;
        }
        let mut feedback_left: Vec<i64> = Vec::new();
        let mut feedback_right: Vec<i64> = Vec::new();
        let mut frame_read: Vec<i64> = Vec::new();
        let mut frame_mix: Vec<i64> = Vec::new();
        let mut fb_scratch: Vec<i64> = Vec::new();
        let mut i: usize = 0;
        while i < 4
            invariant
                i <= 4,
                feedback_left@.len() == i,
                feedback_right@.len() == i,
                frame_read@.len() == i,
                frame_mix@.len() == i,
                fb_scratch@.len() == i,
                forall|k: int| 0 <= k < i ==> #[trigger] feedback_left@[k] == 0i64,
                forall|k: int| 0 <= k < i ==> #[trigger] feedback_right@[k] == 0i64,
            decreases 4 - i,
        {
            feedback_left.push(0);
            feedback_right.push(0);
            frame_read.push(0);
            frame_mix.push(0);
            fb_scratch.push(0);
            i += 1;
        }
        Galactic {
            delays_left,
            delays_right,
            feedback_left,
            feedback_right,
            detune_delay_left: DelayLine::new(DETUNE_CAPACITY),
            detune_delay_right: DelayLine::new(DETUNE_CAPACITY),
            fpd_l,
            fpd_r,
            oldfpd: OLDFPD_INIT,
            vib_m: 3 * UNIT,
            iir_a_l: 0,
            iir_a_r: 0,
            iir_b_l: 0,
            iir_b_r: 0,
            dither,
            frame_read,
            frame_mix,
            fb_scratch,
        }
    }

    /// An engine seeded from the thread-local generator, dither on.
    pub fn new() -> (r: Galactic)
        ensures
            r@.wf(),
            r@.dither,
            FPD_MIN <= r@.fpd_l < 0xffff_ffff,
            FPD_MIN <= r@.fpd_r < 0xffff_ffff,
            r@.oldfpd == OLDFPD_INIT,
            r@.vib_m == 3 * UNIT,
            r@.iir_a_l == 0 && r@.iir_a_r == 0 && r@.iir_b_l == 0 && r@.iir_b_r == 0,
            forall|i: int| 0 <= i < 4 ==> #[trigger] r@.feedback_left[i] == 0i64,
            forall|i: int| 0 <= i < 4 ==> #[trigger] r@.feedback_right[i] == 0i64,
            r.scratch_ok(),
    {
        let fpd_l = random_u32_in(FPD_MIN, 0xffff_ffff);
        let fpd_r = random_u32_in(FPD_MIN, 0xffff_ffff);
        Galactic::from_state(fpd_l, fpd_r, true)
    }

    /// Switch the denormal-substitution and output-dither stage on or off.
    pub fn set_dither(&mut self, on: bool)
        requires
            old(self)@.wf(),
        ensures
            final(self)@ == (GalacticView { dither: on, ..old(self)@ }),
            final(self)@.wf(),
            final(self).scratch_ok() == old(self).scratch_ok(),
    {
        self.dither = on;
    }

    /// Rescale every delay line to the sample rate: each reference length is
    /// taken as samples at 44100 Hz. Not real-time safe; the filter, phase
    /// and dither state stay put, the delay contents are cleared.
    pub fn init(&mut self, sample_rate: u32)
        requires
            old(self)@.wf(),
            8000 <= sample_rate <= 192000,
        ensures
            final(self)@.wf(),
            forall|i: int|
                0 <= i < DELAY_COUNT ==> (#[trigger] final(self)@.delays_left[i]).cap() == ref_time(
                    i,
                ) * sample_rate / 44100,
            forall|i: int|
                0 <= i < DELAY_COUNT ==> (#[trigger] final(self)@.delays_left[i]).len == ref_time(i)
                    * sample_rate / 44100,
            forall|i: int|
                0 <= i < DELAY_COUNT ==> (#[trigger] final(self)@.delays_right[i]).cap()
                    == ref_time(i) * sample_rate / 44100,
            forall|i: int|
                0 <= i < DELAY_COUNT ==> (#[trigger] final(self)@.delays_right[i]).len == ref_time(
                    i,
                ) * sample_rate / 44100,
            forall|i: int, j: int|
                0 <= i < DELAY_COUNT && 0 <= j < final(self)@.delays_left[i].cap()
                    ==> #[trigger] final(self)@.delays_left[i].data[j] == 0i64,
            forall|i: int, j: int|
                0 <= i < DELAY_COUNT && 0 <= j < final(self)@.delays_right[i].cap()
                    ==> #[trigger] final(self)@.delays_right[i].data[j] == 0i64,
            final(self)@.detune_left.cap() == DETUNE_CAPACITY,
            final(self)@.detune_left.len == DETUNE_CAPACITY,
            forall|j: int|
                0 <= j < DETUNE_CAPACITY ==> #[trigger] final(self)@.detune_left.data[j] == 0i64,
            final(self)@.detune_right.cap() == DETUNE_CAPACITY,
            final(self)@.detune_right.len == DETUNE_CAPACITY,
            forall|j: int|
                0 <= j < DETUNE_CAPACITY ==> #[trigger] final(self)@.detune_right.data[j] == 0i64,
            final(self)@.fpd_l == old(self)@.fpd_l,
            final(self)@.fpd_r == old(self)@.fpd_r,
            final(self)@.oldfpd == old(self)@.oldfpd,
            final(self)@.vib_m == old(self)@.vib_m,
            final(self)@.iir_a_l == old(self)@.iir_a_l,
            final(self)@.iir_a_r == old(self)@.iir_a_r,
            final(self)@.iir_b_l == old(self)@.iir_b_l,
            final(self)@.iir_b_r == old(self)@.iir_b_r,
            final(self)@.dither == old(self)@.dither,
            final(self)@.feedback_left == old(self)@.feedback_left,
            final(self)@.feedback_right == old(self)@.feedback_right,
            final(self).scratch_ok() == old(self).scratch_ok(),
    {
        let mut delays_left: Vec<DelayLine> = Vec::new();
        let mut delays_right: Vec<DelayLine> = Vec::new();
        let mut i: usize = 0;
        while i < DELAY_COUNT
            invariant
                i <= DELAY_COUNT,
                8000 <= sample_rate <= 192000,
                delays_left@.len() == i,
                delays_right@.len() == i,
                forall|k: int|
                    0 <= k < i ==> (#[trigger] delays_left@[k]@).wf() && delays_left@[k]@.bounded(
                        SAMPLE_LIMIT as int,
                    ) && delays_left@[k]@.cap() == ref_time(k) * sample_rate / 44100
                        && delays_left@[k]@.len == ref_time(k) * sample_rate / 44100,
                forall|k: int|
                    0 <= k < i ==> (#[trigger] delays_right@[k]@).wf() && delays_right@[k]@.bounded(
                        SAMPLE_LIMIT as int,
                    ) && delays_right@[k]@.cap() == ref_time(k) * sample_rate / 44100
                        && delays_right@[k]@.len == ref_time(k) * sample_rate / 44100,
                forall|k: int, j: int|
                    0 <= k < i && 0 <= j < delays_left@[k]@.cap()
                        ==> #[trigger] delays_left@[k]@.data[j] == 0i64,
                forall|k: int, j: int|
                    0 <= k < i && 0 <= j < delays_right@[k]@.cap()
                        ==> #[trigger] delays_right@[k]@.data[j] == 0i64,
            decreases DELAY_COUNT - i,
        {
            let t = reference_delay_time(i);
            let scaled64: u64 = (t as u64) * (sample_rate as u64) / 44100;
            proof {
                assert(scaled64 >= 1) by (nonlinear_arith)
                    requires
                        scaled64 == t * sample_rate / 44100,
                        680 <= t,
                        8000 <= sample_rate,
                ;
                assert(scaled64 <= 0x1000000) by (nonlinear_arith)
                    requires
                        scaled64 == t * sample_rate / 44100,
                        t <= 15220,
                        sample_rate <= 192000,
                ;
            }
            let scaled = scaled64 as usize;
            delays_left.push(DelayLine::new(scaled));
            delays_right.push(DelayLine::new(scaled));
            i += 1;
        }
        self.delays_left = delays_left;
        self.delays_right = delays_right;
        self.detune_delay_left = DelayLine::new(DETUNE_CAPACITY);
        self.detune_delay_right = DelayLine::new(DETUNE_CAPACITY);
    }

    /// One sample of the engine, mirroring `step_full` exactly.
    fn process_sample(&mut self, in_l: i64, in_r: i64, p: GalacticParams) -> (out: (i64, i64))
        requires
            old(self)@.wf(),
            old(self).scratch_ok(),
            params_wf(p),
            -SAMPLE_LIMIT <= in_l <= SAMPLE_LIMIT,
            -SAMPLE_LIMIT <= in_r <= SAMPLE_LIMIT,
        ensures
            final(self)@ == step_full(old(self)@, in_l, in_r, p).0,
            final(self)@.wf(),
            final(self).scratch_ok(),
            out.0 as int == step_full(old(self)@, in_l, in_r, p).1,
            out.1 as int == step_full(old(self)@, in_l, in_r, p).2,
            -SAMPLE_LIMIT <= out.0 <= SAMPLE_LIMIT,
            -SAMPLE_LIMIT <= out.1 <= SAMPLE_LIMIT,
    {
        let ghost v0 = old(self)@;
        let ghost st = step_full(old(self)@, in_l, in_r, p);

        // Denormal-style substitution on the dry path.
        let dry_l: i64 = if self.dither && in_l == 0 {
            (self.fpd_l / DITHER_DIV) as i64
        } else {
            in_l
        };
        let dry_r: i64 = if self.dither && in_r == 0 {
            (self.fpd_r / DITHER_DIV) as i64
        } else {
            in_r
        };
        proof {
            assert(dry_l == dry_of(v0.dither, v0.fpd_l, in_l));
            assert(dry_r == dry_of(v0.dither, v0.fpd_r, in_r));
            assert(-SAMPLE_LIMIT <= dry_l <= SAMPLE_LIMIT);
            assert(-SAMPLE_LIMIT <= dry_r <= SAMPLE_LIMIT);
        }

        // Advance the modulation phase.
        let inc = mul_gain(self.oldfpd, p.drift);
        proof {
            assert(0 <= inc <= 0x2000_0000) by (nonlinear_arith)
                requires
                    inc == qmul(v0.oldfpd as int, p.drift as int),
                    0 <= inc <= v0.oldfpd * p.drift / (UNIT as int),
                    0 <= v0.oldfpd <= OLDFPD_INIT,
                    0 <= p.drift <= DRIFT_SCALE,
                    OLDFPD_INIT == 28147497574,
                    DRIFT_SCALE == 66,
                    UNIT == 65536,
            ;
        }
        let vib1 = self.vib_m + inc;
        if vib1 > TAU_Q16 {
            self.vib_m = 0;
            self.oldfpd = OLDFPD_BASE + (self.fpd_l / (OLDFPD_DIV as u32)) as i64;
            proof {
                assert((v0.fpd_l / (OLDFPD_DIV as u32)) as int == (v0.fpd_l as int) / (
                OLDFPD_DIV as int));
                assert((v0.fpd_l as int) / (OLDFPD_DIV as int) <= 17399) by (nonlinear_arith)
                    requires
                        v0.fpd_l <= 0xffff_ffff,
                        OLDFPD_DIV == 246853,
                ;
            }
        } else {
            self.vib_m = vib1;
        }
        proof {
            assert(self@.vib_m as int == vib_next(v0, p.drift).0);
            assert(self@.oldfpd as int == vib_next(v0, p.drift).1);
            assert(0 <= self@.vib_m <= TAU_Q16);
            assert(0 <= self@.oldfpd <= OLDFPD_INIT);
        }

        // Feed the modulated pre-delays and take the chorus taps.
        let att_l = mul_gain(dry_l, p.attenuate);
        let att_r = mul_gain(dry_r, p.attenuate);
        self.detune_delay_left.write_and_advance(clip(att_l));
        self.detune_delay_right.write_and_advance(clip(att_r));
        proof {
            assert(self@.detune_left == st.0.detune_left);
            assert(self@.detune_right == st.0.detune_right);
            assert(self@.detune_left.bounded(SAMPLE_LIMIT as int));
            assert(self@.detune_right.bounded(SAMPLE_LIMIT as int));
            assert(self@.detune_left.wf());
            assert(self@.detune_right.wf());
        }
        let s_l = sine(self.vib_m);
        let s_r = sine(self.vib_m + HALF_PI_Q16);
        let off_l = (s_l + UNIT) * 127;
        let off_r = (s_r + UNIT) * 127;
        let tap_l = self.detune_delay_left.read_at_frac(off_l);
        let tap_r = self.detune_delay_right.read_at_frac(off_r);
        proof {
            assert(tap_l as int == interp_at(self@.detune_left, off_l as int));
            assert(tap_r as int == interp_at(self@.detune_right, off_r as int));
        }

        // Stage-A low-pass.
        let ia_l = one_pole(self.iir_a_l, tap_l, p.lowpass);
        let ia_r = one_pole(self.iir_a_r, tap_r, p.lowpass);
        self.iir_a_l = ia_l;
        self.iir_a_r = ia_r;

        // The two cross-fed cascades: the left side's new feedback waits in
        // the scratch frame until the right side has read the old values.
        let sum_l = cascade(
            &mut self.delays_left,
            &self.feedback_right,
            p.regen,
            ia_l,
            &mut self.frame_read,
            &mut self.frame_mix,
            &mut self.fb_scratch,
        );
        let sum_r = cascade(
            &mut self.delays_right,
            &self.feedback_left,
            p.regen,
            ia_r,
            &mut self.frame_read,
            &mut self.frame_mix,
            &mut self.feedback_right,
        );
        let ghost cl_fb = self.fb_scratch@;
        let ghost after_casc = self@;
        let mut fbi: usize = 0;
        while fbi < 4
            invariant
                fbi <= 4,
                self@ == (GalacticView { feedback_left: self@.feedback_left, ..after_casc }),
                self@.feedback_left.len() == 4,
                cl_fb == self.fb_scratch@,
                self.scratch_ok(),
                forall|j: int| 0 <= j < fbi ==> #[trigger] self@.feedback_left[j] == cl_fb[j],
                forall|j: int|
                    fbi <= j < 4 ==> #[trigger] self@.feedback_left[j]
                        == after_casc.feedback_left[j],
            decreases 4 - fbi,
        {
            let ghost before_copy = self@;
            let v = self.fb_scratch[fbi];
            self.feedback_left[fbi] = v;
            proof {
                assert(self@.delays_left =~= before_copy.delays_left);
                assert(self@.delays_right =~= before_copy.delays_right);
            }
            fbi += 1;
        }
        proof {
            assert(self@.feedback_left =~= cl_fb);
        }

        // Stage-B low-pass.
        let ib_l = one_pole(self.iir_b_l, sum_l, p.lowpass);
        let ib_r = one_pole(self.iir_b_r, sum_r, p.lowpass);
        self.iir_b_l = ib_l;
        self.iir_b_r = ib_r;

        // Wet/dry cross-fade.
        let cf_l: i64 = if p.wet < UNIT {
            let w1 = mul_gain(ib_l, p.wet);
            let w2 = mul_gain(dry_l, UNIT - p.wet);
            clip(w1 + w2)
        } else {
            ib_l
        };
        let cf_r: i64 = if p.wet < UNIT {
            let w1 = mul_gain(ib_r, p.wet);
            let w2 = mul_gain(dry_r, UNIT - p.wet);
            clip(w1 + w2)
        } else {
            ib_r
        };

        // Exponent-scaled output dither.
        let out_l: i64;
        let out_r: i64;
        if self.dither {
            let f_l = xorshift_step(self.fpd_l);
            let f_r = xorshift_step(self.fpd_r);
            let el = frexp(cf_l);
            let er = frexp(cf_r);
            let n_l = noise(f_l, el.1);
            let n_r = noise(f_r, er.1);
            out_l = clip(cf_l + n_l);
            out_r = clip(cf_r + n_r);
            self.fpd_l = f_l;
            self.fpd_r = f_r;
        } else {
            out_l = cf_l;
            out_r = cf_r;
        }
        proof {
            assert(out_l as int == dithered(v0.dither, self@.fpd_l, cf_l as int));
            assert(out_r as int == dithered(v0.dither, self@.fpd_r, cf_r as int));
            assert(self@.delays_left == st.0.delays_left);
            assert(self@.delays_right == st.0.delays_right);
            assert(self@.feedback_left == st.0.feedback_left);
            assert(self@.feedback_right == st.0.feedback_right);
            assert(self@.fpd_l == st.0.fpd_l);
            assert(self@.fpd_r == st.0.fpd_r);
            assert(self@.oldfpd == st.0.oldfpd);
            assert(self@.vib_m == st.0.vib_m);
            assert(self@.iir_a_l == st.0.iir_a_l);
            assert(self@.iir_a_r == st.0.iir_a_r);
            assert(self@.iir_b_l == st.0.iir_b_l);
            assert(self@.iir_b_r == st.0.iir_b_r);
            assert(self@.dither == st.0.dither);
            assert(self@ == st.0);
        }
        (out_l, out_r)
    }

    /// Rescale every line's active length to the Q16 size fraction.
    #[verifier::loop_isolation(false)]
    fn rescale_lines(&mut self, frac: i64)
        requires
            old(self)@.wf(),
            0 <= frac <= UNIT,
            old(self).scratch_ok(),
        ensures
            final(self)@ == old(self)@.rescaled(frac as int),
            final(self)@.wf(),
            final(self).scratch_ok(),
    {
        let mut i: usize = 0;
        while i < DELAY_COUNT
            invariant
                i <= DELAY_COUNT,
                self.scratch_ok(),
                self@.delays_left.len() == DELAY_COUNT,
                self@.delays_right.len() == DELAY_COUNT,
                forall|k: int|
                    0 <= k < i ==> #[trigger] self@.delays_left[k] == resized(
                        old(self)@.delays_left[k],
                        frac as int,
                    ),
                forall|k: int|
                    i <= k < DELAY_COUNT ==> #[trigger] self@.delays_left[k] == old(
                        self,
                    )@.delays_left[k],
                forall|k: int|
                    0 <= k < i ==> #[trigger] self@.delays_right[k] == resized(
                        old(self)@.delays_right[k],
                        frac as int,
                    ),
                forall|k: int|
                    i <= k < DELAY_COUNT ==> #[trigger] self@.delays_right[k] == old(
                        self,
                    )@.delays_right[k],
                forall|k: int|
                    0 <= k < DELAY_COUNT ==> (#[trigger] self@.delays_left[k]).wf()
                        && self@.delays_left[k].bounded(SAMPLE_LIMIT as int),
                forall|k: int|
                    0 <= k < DELAY_COUNT ==> (#[trigger] self@.delays_right[k]).wf()
                        && self@.delays_right[k].bounded(SAMPLE_LIMIT as int),
                self@.feedback_left == old(self)@.feedback_left,
                self@.feedback_right == old(self)@.feedback_right,
                self@.detune_left == old(self)@.detune_left,
                self@.detune_right == old(self)@.detune_right,
                self@.fpd_l == old(self)@.fpd_l,
                self@.fpd_r == old(self)@.fpd_r,
                self@.oldfpd == old(self)@.oldfpd,
                self@.vib_m == old(self)@.vib_m,
                self@.iir_a_l == old(self)@.iir_a_l,
                self@.iir_a_r == old(self)@.iir_a_r,
                self@.iir_b_l == old(self)@.iir_b_l,
                self@.iir_b_r == old(self)@.iir_b_r,
                self@.dither == old(self)@.dither,
            decreases DELAY_COUNT - i,
        {
            let ghost before = self@;
            proof {
                assert(self@.delays_left[i as int] == self.delays_left@[i as int]@);
                assert(self@.delays_left[i as int].wf());
            }
            let line = &mut self.delays_left[i];
            line.set_length_fraction(frac);
            proof {
                assert forall|k: int|
                    0 <= k < DELAY_COUNT && k != i implies #[trigger] self@.delays_left[k]
                    == before.delays_left[k] by {}
                assert(self@.delays_left[i as int] == resized(
                    before.delays_left[i as int],
                    frac as int,
                ));
                assert(self@.delays_right =~= before.delays_right);
            }
            let ghost before2 = self@;
            proof {
                assert(self@.delays_right[i as int] == self.delays_right@[i as int]@);
                assert(self@.delays_right[i as int].wf());
            }
            let line = &mut self.delays_right[i];
            line.set_length_fraction(frac);
            proof {
                assert forall|k: int|
                    0 <= k < DELAY_COUNT && k != i implies #[trigger] self@.delays_right[k]
                    == before2.delays_right[k] by {}
                assert(self@.delays_right[i as int] == resized(
                    before2.delays_right[i as int],
                    frac as int,
                ));
                assert(self@.delays_left =~= before2.delays_left);
            }
            i += 1;
        }
        proof {
            assert(self@.delays_left =~= old(self)@.rescaled(frac as int).delays_left);
            assert(self@.delays_right =~= old(self)@.rescaled(frac as int).delays_right);
            assert(self@ == old(self)@.rescaled(frac as int));
        }
    }

    /// One block of the reverberator. The control values are taken from the
    /// head of each control sequence, shaped by `params_spec`, the delay
    /// lengths are rescaled to the size fraction, and every frame then runs
    /// one exact `step_full`. The engine never signals completion.
    #[verifier::loop_isolation(false)]
    #[verifier::rlimit(100)]
    #[verifier::spinoff_prover]
    pub fn process(
        &mut self,
        left: &Vec<i64>,
        right: &Vec<i64>,
        size: &Vec<i64>,
        replace: &Vec<i64>,
        brightness: &Vec<i64>,
        detune: &Vec<i64>,
        mix: &Vec<i64>,
        left_out: &mut Vec<i64>,
        right_out: &mut Vec<i64>,
        sample_rate: u32,
    ) -> (state: GenState)
        requires
            old(self)@.wf(),
            old(self).scratch_ok(),
            left@.len() == right@.len(),
            old(left_out)@.len() == left@.len(),
            old(right_out)@.len() == left@.len(),
            size@.len() >= 1 && 0 <= size@[0] <= UNIT,
            replace@.len() >= 1 && 0 <= replace@[0] <= UNIT,
            brightness@.len() >= 1 && 0 <= brightness@[0] <= UNIT,
            detune@.len() >= 1 && 0 <= detune@[0] <= UNIT,
            mix@.len() >= 1 && 0 <= mix@[0] <= UNIT,
            8000 <= sample_rate <= 192000,
            forall|f: int|
                0 <= f < left@.len() ==> -SAMPLE_LIMIT <= #[trigger] left@[f] <= SAMPLE_LIMIT,
            forall|f: int|
                0 <= f < right@.len() ==> -SAMPLE_LIMIT <= #[trigger] right@[f] <= SAMPLE_LIMIT,
        ensures
            state == GenState::Continue,
            final(self)@.wf(),
            final(self).scratch_ok(),
            final(left_out)@.len() == left@.len(),
            final(right_out)@.len() == left@.len(),
            ({
                let p = params_spec(
                    size@[0],
                    replace@[0],
                    brightness@[0],
                    detune@[0],
                    mix@[0],
                    sample_rate,
                );
                let v1 = old(self)@.rescaled(p.size_frac as int);
                &&& final(self)@ == gstate_at(v1, left@, right@, p, left@.len() as int)
                &&& forall|f: int|
                    0 <= f < left@.len() ==> #[trigger] final(left_out)@[f] as int == step_full(
                        gstate_at(v1, left@, right@, p, f),
                        left@[f],
                        right@[f],
                        p,
                    ).1
                &&& forall|f: int|
                    0 <= f < left@.len() ==> #[trigger] final(right_out)@[f] as int == step_full(
                        gstate_at(v1, left@, right@, p, f),
                        left@[f],
                        right@[f],
                        p,
                    ).2
            }),
            forall|f: int|
                0 <= f < left@.len() ==> -SAMPLE_LIMIT <= #[trigger] final(left_out)@[f]
                    <= SAMPLE_LIMIT,
            forall|f: int|
                0 <= f < left@.len() ==> -SAMPLE_LIMIT <= #[trigger] final(right_out)@[f]
                    <= SAMPLE_LIMIT,
    {
        let b = left.len();
        let p = derive_params(size[0], replace[0], brightness[0], detune[0], mix[0], sample_rate);
        let ghost pv = p;
        let ghost v1 = old(self)@.rescaled(p.size_frac as int);
        self.rescale_lines(p.size_frac);
        proof {
            assert(self@ == v1);
        }

        // Process the block, one exact step per frame.
        let mut f: usize = 0;
        while f < b
            invariant
                f <= b,
                b == left@.len(),
                self@ == gstate_at(v1, left@, right@, pv, f as int),
                self@.wf(),
                self.scratch_ok(),
                left_out@.len() == b,
                right_out@.len() == b,
                forall|j: int|
                    0 <= j < f ==> #[trigger] left_out@[j] as int == step_full(
                        gstate_at(v1, left@, right@, pv, j),
                        left@[j],
                        right@[j],
                        pv,
                    ).1,
                forall|j: int|
                    0 <= j < f ==> #[trigger] right_out@[j] as int == step_full(
                        gstate_at(v1, left@, right@, pv, j),
                        left@[j],
                        right@[j],
                        pv,
                    ).2,
                forall|j: int|
                    0 <= j < f ==> -SAMPLE_LIMIT <= #[trigger] left_out@[j] <= SAMPLE_LIMIT,
                forall|j: int|
                    0 <= j < f ==> -SAMPLE_LIMIT <= #[trigger] right_out@[j] <= SAMPLE_LIMIT,
            decreases b - f,
        {
            let outs = self.process_sample(left[f], right[f], p);
            left_out[f] = outs.0;
            right_out[f] = outs.1;
            proof {
                assert(self@ == gstate_at(v1, left@, right@, pv, f as int + 1));
            }
            f += 1;
        }
        GenState::Continue
    }
}

/// Law: with the dither stage off and the mix control at zero, one step of
/// the engine returns the dry input unchanged on both channels.
pub proof fn lemma_zero_mix_is_dry(v: GalacticView, in_l: i64, in_r: i64, p: GalacticParams)
    requires
        v.wf(),
        !v.dither,
        params_wf(p),
        p.wet == 0,
        -SAMPLE_LIMIT <= in_l <= SAMPLE_LIMIT,
        -SAMPLE_LIMIT <= in_r <= SAMPLE_LIMIT,
    ensures
        step_full(v, in_l, in_r, p).1 == in_l,
        step_full(v, in_l, in_r, p).2 == in_r,
{
    let cl = cascade_spec(v.delays_left, v.feedback_right, p.regen as int, clip_i64(
        lp_step(
            v.iir_a_l as int,
            interp_at(
                v.detune_left.write_one(clip_i64(qmul(in_l as int, p.attenuate as int))),
                (sine_q(vib_next(v, p.drift).0) + UNIT) * 127,
            ),
            p.lowpass as int,
        ),
    ));
    let iirb_l = lp_step(v.iir_b_l as int, cl.2, p.lowpass as int);
    assert(iirb_l * 0 == 0) by (nonlinear_arith);
    assert(qmul(iirb_l, 0) == 0);
    crate::mixer::lemma_tdiv_mul(in_l as int, UNIT as int);
    assert(in_l * (UNIT as int) == (UNIT as int) * in_l) by (nonlinear_arith);
    assert(qmul(in_l as int, UNIT as int) == in_l);
    assert(crossfade(iirb_l, in_l, 0) == in_l);
    let cr = cascade_spec(v.delays_right, v.feedback_left, p.regen as int, clip_i64(
        lp_step(
            v.iir_a_r as int,
            interp_at(
                v.detune_right.write_one(clip_i64(qmul(in_r as int, p.attenuate as int))),
                (sine_q(vib_next(v, p.drift).0 + HALF_PI_Q16) + UNIT) * 127,
            ),
            p.lowpass as int,
        ),
    ));
    let iirb_r = lp_step(v.iir_b_r as int, cr.2, p.lowpass as int);
    assert(iirb_r * 0 == 0) by (nonlinear_arith);
    assert(qmul(iirb_r, 0) == 0);
    crate::mixer::lemma_tdiv_mul(in_r as int, UNIT as int);
    assert(in_r * (UNIT as int) == (UNIT as int) * in_r) by (nonlinear_arith);
    assert(qmul(in_r as int, UNIT as int) == in_r);
    assert(crossfade(iirb_r, in_r, 0) == in_r);
}

/// Law: at full wet the cross-fade is skipped outright, so the output is
/// exactly the stage-B filter state and carries no direct dry term.
pub proof fn lemma_full_wet_skips_dry(v: GalacticView, in_l: i64, in_r: i64, p: GalacticParams)
    requires
        v.wf(),
        !v.dither,
        params_wf(p),
        p.wet == UNIT,
    ensures
        step_full(v, in_l, in_r, p).1 == step_full(v, in_l, in_r, p).0.iir_b_l as int,
        step_full(v, in_l, in_r, p).2 == step_full(v, in_l, in_r, p).0.iir_b_r as int,
{
}

} // verus!
