//! The reverberation engine: an input low-pass, a cascade of diffusion
//! stages, and a feedback tail, composed block by block with two working
//! buffers alternated between stages.
//!
//! Per block: the raw input is low-passed, broadcast across all channels,
//! diffused through each stage in turn, summed into early reflections, fed
//! through the tail, and the tail's channels are summed on top, scaled so
//! that channel and stage counts do not change the loudness.

use vstd::prelude::*;

verus! {

use crate::GenState;
use crate::diffuser::Diffuser;
use crate::diffuser::DiffuserView;
use crate::diffuser::frame_of;
use crate::diffuser::rows;
use crate::fixed::SAMPLE_LIMIT;
use crate::fixed::UNIT;
use crate::fixed::clip_s;
use crate::fixed::lp_step;
use crate::fixed::mul_gain;
use crate::fixed::one_pole;
use crate::fixed::qmul;
use crate::mixer::ints;
use crate::mixer::sum_seq;
use crate::tail::Tail;
use crate::tail::TailView;

/// Channels every stage of this engine runs on.
pub const CHANNELS: usize = 8;

/// Number of cascaded diffusion stages.
pub const DIFFUSERS: usize = 4;

/// Gain on the summed early reflections (one half in Q16).
pub const EARLY_REFLECTIONS_GAIN: i64 = 32768;

/// Loudness compensation: one over `CHANNELS * DIFFUSERS`, in Q16.
pub const COMPENSATION_GAIN: i64 = 2048;

/// The input low-pass state after `f` samples of the raw input.
pub open spec fn lpf_at(y0: i64, input: Seq<i64>, lowpass: Seq<i64>, f: int) -> int
    decreases f,
{
    if f <= 0 {
        y0 as int
    } else {
        lp_step(lpf_at(y0, input, lowpass, f - 1), input[f - 1] as int, lowpass[f - 1] as int)
    }
}

/// The whole filtered input block.
pub open spec fn filtered_of(y0: i64, input: Seq<i64>, lowpass: Seq<i64>, b: int) -> Seq<i64> {
    Seq::new(b as nat, |f: int| lpf_at(y0, input, lowpass, f + 1) as i64)
}

/// The block entering diffusion stage `k`: the filtered input broadcast on
/// every channel for stage zero, and the previous stage's output after that.
pub open spec fn chain_input(
    diffs: Seq<DiffuserView>,
    filtered: Seq<i64>,
    b: int,
    k: int,
) -> Seq<Seq<i64>>
    decreases k,
{
    if k <= 0 {
        Seq::new(CHANNELS as nat, |c: int| filtered)
    } else {
        let prev = chain_input(diffs, filtered, b, k - 1);
        Seq::new(
            CHANNELS as nat,
            |c: int| Seq::new(b as nat, |f: int| diffs[k - 1].block_out(prev, f)[c] as i64),
        )
    }
}

/// The sum of the first `n` channels of a block at frame `f`.
pub open spec fn col_sum(m: Seq<Seq<i64>>, n: int, f: int) -> int {
    sum_seq(ints(frame_of(m, n, f)))
}

/// The engine's output sample at frame `f`: the early-reflection sum of the
/// last diffusion stage scaled by one half, plus the sum of the tail's
/// channels scaled by the loudness compensation, saturated.
pub open spec fn out_sample(diff_out: Seq<Seq<i64>>, tail_out: Seq<Seq<i64>>, f: int) -> int {
    clip_s(
        qmul(col_sum(diff_out, CHANNELS as int, f), EARLY_REFLECTIONS_GAIN as int) + qmul(
            col_sum(tail_out, CHANNELS as int, f),
            COMPENSATION_GAIN as int,
        ),
    )
}

/// Mathematical state of the engine.
pub struct LuffVerbView {
    pub diffusers: Seq<DiffuserView>,
    pub tail: TailView,
    pub input_lpf: i64,
    pub buffer0: Seq<Seq<i64>>,
    pub buffer1: Seq<Seq<i64>>,
}

impl LuffVerbView {
    pub open spec fn wf(self) -> bool {
        &&& self.diffusers.len() == DIFFUSERS
        &&& forall|k: int|
            0 <= k < DIFFUSERS ==> (#[trigger] self.diffusers[k]).wf()
                && self.diffusers[k].channels() == CHANNELS
        &&& self.tail.wf()
        &&& self.tail.channels() == CHANNELS
        &&& -SAMPLE_LIMIT <= self.input_lpf <= SAMPLE_LIMIT
    }

    /// Working buffers sized for a block of `b`, which fits the tail.
    pub open spec fn ready(self, b: int) -> bool {
        &&& self.buffer0.len() == CHANNELS
        &&& self.buffer1.len() == CHANNELS
        &&& forall|c: int| 0 <= c < CHANNELS ==> (#[trigger] self.buffer0[c]).len() == b
        &&& forall|c: int| 0 <= c < CHANNELS ==> (#[trigger] self.buffer1[c]).len() == b
        &&& self.tail.ready(b)
    }
}

/// Run one diffusion stage out of a bank: stage `k` consumes `input` and
/// fills `output`, and no other stage moves.
#[verifier::loop_isolation(false)]
fn run_stage(diffs: &mut Vec<Diffuser>, k: usize, input: &Vec<Vec<i64>>, output: &mut Vec<Vec<i64>>)
    requires
        k < old(diffs)@.len(),
        old(diffs)@[k as int]@.wf(),
        old(diffs)@[k as int]@.channels() == CHANNELS,
        forall|i: int| 0 <= i < old(diffs)@.len() ==> (#[trigger] old(diffs)@[i]).scratch_ok(),
        input@.len() == CHANNELS,
        forall|c: int|
            0 <= c < CHANNELS ==> (#[trigger] input@[c])@.len() == input@[0]@.len(),
        forall|c: int|
            0 <= c < CHANNELS ==> (#[trigger] old(output)@[c])@.len() == input@[0]@.len(),
        old(output)@.len() == CHANNELS,
        forall|c: int, f: int|
            0 <= c < CHANNELS && 0 <= f < input@[c]@.len() ==> -SAMPLE_LIMIT
                <= #[trigger] input@[c]@[f] <= SAMPLE_LIMIT,
    ensures
        final(diffs)@.len() == old(diffs)@.len(),
        forall|i: int| 0 <= i < old(diffs)@.len() ==> (#[trigger] final(diffs)@[i]).scratch_ok(),
        forall|i: int|
            0 <= i < old(diffs)@.len() && i != k ==> #[trigger] final(diffs)@[i] == old(
                diffs,
            )@[i],
        final(diffs)@[k as int]@ == old(diffs)@[k as int]@.state_at(
            rows(input@),
            input@[0]@.len() as int,
        ),
        final(diffs)@[k as int]@.wf(),
        final(diffs)@[k as int]@.channels() == CHANNELS,
        final(output)@.len() == CHANNELS,
        forall|c: int|
            0 <= c < CHANNELS ==> (#[trigger] final(output)@[c])@.len() == input@[0]@.len(),
        forall|c: int, f: int|
            0 <= c < CHANNELS && 0 <= f < input@[0]@.len() ==> #[trigger] final(output)@[c]@[f]
                == old(diffs)@[k as int]@.block_out(rows(input@), f)[c] as i64,
        forall|c: int, f: int|
            0 <= c < CHANNELS && 0 <= f < input@[0]@.len()
                ==> -SAMPLE_LIMIT <= #[trigger] final(output)@[c]@[f] <= SAMPLE_LIMIT,
{
    let ghost b = input@[0]@.len() as int;
    proof {
        assert forall|c: int, j: int|
            0 <= c < rows(input@).len() && 0 <= j < b implies -SAMPLE_LIMIT
            <= #[trigger] rows(input@)[c][j] <= SAMPLE_LIMIT by {
            assert(rows(input@)[c][j] == input@[c]@[j]);
        }
        assert forall|c: int| 0 <= c < rows(input@).len() implies (#[trigger] rows(
            input@,
        )[c]).len() == b by {
            assert(rows(input@)[c] == input@[c]@);
        }
    }
    let d = &mut diffs[k];
    proof {
        crate::diffuser::lemma_state_at_wf(old(diffs)@[k as int]@, rows(input@), b, b);
    }
    d.process_block(input, output);
    proof {
        assert forall|i: int|
            0 <= i < old(diffs)@.len() implies (#[trigger] diffs@[i]).scratch_ok() by {
            if i != k {
                assert(diffs@[i] == old(diffs)@[i]);
            }
        }
        assert forall|c: int, f: int|
            0 <= c < CHANNELS && 0 <= f < input@[0]@.len() implies -SAMPLE_LIMIT
            <= #[trigger] output@[c]@[f] <= SAMPLE_LIMIT by {
            let v = old(diffs)@[k as int]@.block_out(rows(input@), f)[c];
            assert(output@[c]@[f] == v as i64);
            crate::diffuser::lemma_state_at_wf(old(diffs)@[k as int]@, rows(input@), b, f);
            let st = old(diffs)@[k as int]@.state_at(rows(input@), f);
            assert(v == st.step_out()[c]);
            assert(st.step_out()[c] == clip_s(crate::mixer::whad(st.premix())[c]));
        }
    }
}

/// A multi-stage feedback-delay-network reverberator.
pub struct LuffVerb {
    diffusers: Vec<Diffuser>,
    tail: Tail,
    input_lpf: i64,
    buffer0: Vec<Vec<i64>>,
    buffer1: Vec<Vec<i64>>,
}

impl View for LuffVerb {
    type V = LuffVerbView;

    closed spec fn view(&self) -> LuffVerbView {
        LuffVerbView {
            diffusers: Seq::new(self.diffusers@.len(), |k: int| self.diffusers@[k]@),
            tail: self.tail@,
            input_lpf: self.input_lpf,
            buffer0: Seq::new(self.buffer0@.len(), |c: int| self.buffer0@[c]@),
            buffer1: Seq::new(self.buffer1@.len(), |c: int| self.buffer1@[c]@),
        }
    }
}

impl LuffVerb {
    /// Every stage's and the tail's per-frame working buffer is sized to its
    /// channel count, so processing a block never allocates.
    pub closed spec fn scratch_ok(&self) -> bool {
        &&& self.tail.scratch_ok()
        &&& forall|k: int|
            0 <= k < self.diffusers@.len() ==> (#[trigger] self.diffusers@[k]).scratch_ok()
    }

    /// An engine whose tail is `tail_delay` samples long at most, with the
    /// given Q16 feedback gain; each diffusion stage draws its own delay
    /// lengths from disjoint strata of an eighth of the tail delay. A gain
    /// at or above one would blow the loop up, so construction refuses it.
    #[verifier::loop_isolation(false)]
    pub fn new(tail_delay: usize, feedback: i64) -> (r: LuffVerb)
        requires
            128 <= tail_delay <= crate::delay::MAX_CAPACITY,
            0 <= feedback < UNIT,
        ensures
            r@.wf(),
            r@.tail.gain == feedback,
            r@.input_lpf == 0i64,
            forall|c: int|
                0 <= c < CHANNELS ==> tail_delay as int / 10 <= (#[trigger] r@.tail.delays[c]).len
                    < tail_delay,
            forall|k: int, c: int|
                0 <= k < DIFFUSERS && 0 <= c < CHANNELS ==> ({
                    let stride = (tail_delay as int / 8) / (CHANNELS as int);
                    stride * c + 1 <= (#[trigger] r@.diffusers[k].delays[c]).len < stride * (c + 1)
                }),
            r@.buffer0.len() == 0,
            r@.buffer1.len() == 0,
            r.scratch_ok(),
    {
        let stage_delay = tail_delay / (DIFFUSERS * 2);
        proof {
            assert(stage_delay >= 16) by (nonlinear_arith)
                requires
                    stage_delay == tail_delay as int / 8,
                    tail_delay >= 128,
            ;
            assert(crate::mixer::is_pow2(1));
            assert(crate::mixer::is_pow2(2));
            assert(crate::mixer::is_pow2(4));
            assert(crate::mixer::is_pow2(8));
        }
        let mut diffusers: Vec<Diffuser> = Vec::new();
        let mut k: usize = 0;
        while k < DIFFUSERS
            invariant
                k <= DIFFUSERS,
                16 <= stage_delay <= crate::delay::MAX_CAPACITY,
                stage_delay == tail_delay as int / 8,
                diffusers@.len() == k,
                forall|i: int|
                    0 <= i < k ==> (#[trigger] diffusers@[i]@).wf() && diffusers@[i]@.channels()
                        == CHANNELS,
                forall|i: int| 0 <= i < k ==> (#[trigger] diffusers@[i]).scratch_ok(),
                forall|i: int, c: int|
                    0 <= i < k && 0 <= c < CHANNELS ==> ({
                        let stride = (stage_delay as int) / (CHANNELS as int);
                        stride * c + 1 <= (#[trigger] diffusers@[i]@.delays[c]).len < stride * (c
                            + 1)
                    }),
            decreases DIFFUSERS - k,
        {
            let d = Diffuser::new(CHANNELS, stage_delay);
            diffusers.push(d);
            k += 1;
        }
        let tail = Tail::new(CHANNELS, tail_delay, feedback);
        LuffVerb { diffusers, tail, input_lpf: 0, buffer0: Vec::new(), buffer1: Vec::new() }
    }

    /// Size the working buffers and the tail's scratch for a block of
    /// `block_size`; not real-time safe, and required before processing.
    #[verifier::loop_isolation(false)]
    pub fn init(&mut self, block_size: usize)
        requires
            old(self)@.wf(),
            old(self).scratch_ok(),
        ensures
            final(self)@.wf(),
            final(self).scratch_ok(),
            final(self)@.diffusers == old(self)@.diffusers,
            final(self)@.tail.gain == old(self)@.tail.gain,
            final(self)@.tail.delays == old(self)@.tail.delays,
            final(self)@.tail.lowpass == old(self)@.tail.lowpass,
            final(self)@.input_lpf == old(self)@.input_lpf,
            (forall|c: int|
                0 <= c < CHANNELS ==> block_size <= (#[trigger] old(self)@.tail.delays[c]).len)
                ==> final(self)@.ready(block_size as int),
    {
        let mut buffer0: Vec<Vec<i64>> = Vec::new();
        let mut buffer1: Vec<Vec<i64>> = Vec::new();
        let mut c: usize = 0;
        while c < CHANNELS
            invariant
                c <= CHANNELS,
                buffer0@.len() == c,
                buffer1@.len() == c,
                forall|i: int| 0 <= i < c ==> (#[trigger] buffer0@[i])@.len() == block_size,
                forall|i: int| 0 <= i < c ==> (#[trigger] buffer1@[i])@.len() == block_size,
            decreases CHANNELS - c,
        {
            let mut row0: Vec<i64> = Vec::new();
            let mut row1: Vec<i64> = Vec::new();
            let mut f: usize = 0;
            while f < block_size
                invariant
                    f <= block_size,
                    row0@.len() == f,
                    row1@.len() == f,
                decreases block_size - f,
            {
                row0.push(0);
                row1.push(0);
                f += 1;
            }
            buffer0.push(row0);
            buffer1.push(row1);
            c += 1;
        }
        self.buffer0 = buffer0;
        self.buffer1 = buffer1;
        self.tail.init(block_size);
        let ghost mid = self@;
        let mut k: usize = 0;
        while k < DIFFUSERS
            invariant
                k <= DIFFUSERS,
                self@.diffusers.len() == DIFFUSERS,
                self.diffusers@.len() == DIFFUSERS,
                self.tail.scratch_ok(),
                forall|i: int|
                    0 <= i < DIFFUSERS ==> (#[trigger] self.diffusers@[i]).scratch_ok(),
                self@.diffusers == mid.diffusers,
                self@.tail == mid.tail,
                self@.input_lpf == mid.input_lpf,
                self@.buffer0 == mid.buffer0,
                self@.buffer1 == mid.buffer1,
                mid.diffusers == old(self)@.diffusers,
                forall|i: int|
                    0 <= i < DIFFUSERS ==> (#[trigger] self@.diffusers[i]).wf()
                        && self@.diffusers[i].channels() == CHANNELS,
            decreases DIFFUSERS - k,
        {
            let ghost before = self@;
            let ghost dsnap = self.diffusers@;
            let d = &mut self.diffusers[k];
            d.init(block_size);
            proof {
                assert(self@.diffusers =~= before.diffusers);
                assert(self@.buffer0 =~= before.buffer0);
                assert(self@.buffer1 =~= before.buffer1);
                assert forall|i: int|
                    0 <= i < DIFFUSERS implies (#[trigger] self.diffusers@[i]).scratch_ok() by {
                    if i != k {
                        assert(self.diffusers@[i] == dsnap[i]);
                    }
                }
            }
            k += 1;
        }
    }

    /// One block of the reverberator. The raw input is low-passed by the Q16
    /// `lowpass` coefficients, broadcast across the channels, diffused
    /// through every stage, summed into early reflections, run through the
    /// damped feedback tail, whose compensated channel sum lands on top of
    /// the early reflections to form the mono output. The engine never
    /// signals completion.
    #[verifier::loop_isolation(false)]
    pub fn process(
        &mut self,
        input: &Vec<i64>,
        output: &mut Vec<i64>,
        lowpass: &Vec<i64>,
        damping: &Vec<i64>,
    ) -> (state: GenState)
        requires
            old(self)@.wf(),
            old(self)@.ready(input@.len() as int),
            old(self).scratch_ok(),
            old(output)@.len() == input@.len(),
            lowpass@.len() == input@.len(),
            damping@.len() == input@.len(),
            forall|f: int|
                0 <= f < input@.len() ==> -SAMPLE_LIMIT <= #[trigger] input@[f] <= SAMPLE_LIMIT,
            forall|f: int| 0 <= f < lowpass@.len() ==> 0 <= #[trigger] lowpass@[f] <= UNIT,
            forall|f: int| 0 <= f < damping@.len() ==> 0 <= #[trigger] damping@[f] <= UNIT,
        ensures
            final(self)@.wf(),
            final(self)@.ready(input@.len() as int),
            final(self).scratch_ok(),
            state == GenState::Continue,
            final(output)@.len() == input@.len(),
            final(self)@.tail.gain == old(self)@.tail.gain,
            final(self)@.input_lpf as int == lpf_at(
                old(self)@.input_lpf,
                input@,
                lowpass@,
                input@.len() as int,
            ),
            forall|k: int|
                0 <= k < DIFFUSERS ==> #[trigger] final(self)@.diffusers[k] == old(
                    self,
                )@.diffusers[k].state_at(
                    chain_input(
                        old(self)@.diffusers,
                        filtered_of(old(self)@.input_lpf, input@, lowpass@, input@.len() as int),
                        input@.len() as int,
                        k,
                    ),
                    input@.len() as int,
                ),
            forall|c: int|
                0 <= c < CHANNELS ==> #[trigger] final(self)@.tail.lowpass[c] as int
                    == crate::tail::lp_chain(
                    old(self)@.tail.lowpass[c],
                    old(self)@.tail.mixed_row(input@.len() as int, c),
                    old(self)@.tail.gain,
                    damping@,
                    input@.len() as int,
                ),
            forall|c: int|
                0 <= c < CHANNELS ==> #[trigger] final(self)@.tail.delays[c] == old(
                    self,
                )@.tail.delays[c].write_seq(
                    crate::tail::wb_from(
                        old(self)@.tail.lowpass[c],
                        old(self)@.tail.mixed_row(input@.len() as int, c),
                        old(self)@.tail.gain,
                        chain_input(
                            old(self)@.diffusers,
                            filtered_of(
                                old(self)@.input_lpf,
                                input@,
                                lowpass@,
                                input@.len() as int,
                            ),
                            input@.len() as int,
                            DIFFUSERS as int,
                        )[c],
                        damping@,
                        input@.len() as int,
                    ),
                ),
            forall|f: int|
                0 <= f < input@.len() ==> #[trigger] final(output)@[f] as int == out_sample(
                    chain_input(
                        old(self)@.diffusers,
                        filtered_of(old(self)@.input_lpf, input@, lowpass@, input@.len() as int),
                        input@.len() as int,
                        DIFFUSERS as int,
                    ),
                    old(self)@.tail.douts(input@.len() as int),
                    f,
                ),
            forall|f: int|
                0 <= f < input@.len() ==> -SAMPLE_LIMIT <= #[trigger] final(output)@[f]
                    <= SAMPLE_LIMIT,
    {
        let b = input.len();
        let ghost filt = filtered_of(old(self)@.input_lpf, input@, lowpass@, b as int);
        let ghost dv0 = old(self)@.diffusers;
        let ghost tail0 = old(self)@.tail;

        // Input low-pass, written into the output block as scratch.
        let mut y: i64 = self.input_lpf;
        let mut f: usize = 0;
        while f < b
            invariant
                f <= b,
                output@.len() == b,
                self@ == old(self)@,
                -SAMPLE_LIMIT <= y <= SAMPLE_LIMIT,
                y as int == lpf_at(old(self)@.input_lpf, input@, lowpass@, f as int),
                forall|j: int| 0 <= j < f ==> #[trigger] output@[j] == filt[j],
            decreases b - f,
        {
            let y2 = one_pole(y, input[f], lowpass[f]);
            output[f] = y2;
            y = y2;
            f += 1;
        }
        self.input_lpf = y;
        proof {
            assert(self.scratch_ok());
            assert(self@.diffusers =~= dv0);
            assert(self@.tail == tail0);
            assert(self@.buffer0 =~= old(self)@.buffer0);
            assert(self@.buffer1 =~= old(self)@.buffer1);
            assert forall|j: int| 0 <= j < b implies -SAMPLE_LIMIT <= #[trigger] filt[j]
                <= SAMPLE_LIMIT by {
                assert(filt[j] as int == lpf_at(old(self)@.input_lpf, input@, lowpass@, j + 1));
            }
        }

        // Broadcast the filtered block identically across all channels.
        let mut c: usize = 0;
        while c < CHANNELS
            invariant
                c <= CHANNELS,
                output@.len() == b,
                forall|j: int| 0 <= j < b ==> #[trigger] output@[j] == filt[j],
                self@.diffusers == dv0,
                self@.tail == tail0,
                self.scratch_ok(),
                self@.input_lpf as int == lpf_at(old(self)@.input_lpf, input@, lowpass@, b as int),
                self@.ready(b as int),
                forall|k: int, j: int|
                    0 <= k < c && 0 <= j < b ==> #[trigger] self@.buffer0[k][j] == filt[j],
            decreases CHANNELS - c,
        {
            let mut f: usize = 0;
            while f < b
                invariant
                    f <= b,
                    c < CHANNELS,
                    self@.diffusers == dv0,
                    self@.tail == tail0,
                    self.scratch_ok(),
                    self@.input_lpf as int == lpf_at(
                        old(self)@.input_lpf,
                        input@,
                        lowpass@,
                        b as int,
                    ),
                    self@.ready(b as int),
                    forall|k: int, j: int|
                        0 <= k < c && 0 <= j < b ==> #[trigger] self@.buffer0[k][j] == filt[j],
                    forall|j: int| 0 <= j < f ==> #[trigger] self@.buffer0[c as int][j] == filt[j],
                decreases b - f,
            {
                let v = output[f];
                let ghost before = self@;
                proof {
                    assert(self@.buffer0[c as int] == self.buffer0@[c as int]@);
                }
                let row = &mut self.buffer0[c];
                row[f] = v;
                proof {
                    assert forall|k: int|
                        0 <= k < CHANNELS && k != c implies #[trigger] self@.buffer0[k]
                        == before.buffer0[k] by {}
                    assert(self@.buffer0[c as int] == before.buffer0[c as int].update(f as int, v));
                    assert(self@.diffusers =~= before.diffusers);
                    assert(self@.buffer1 =~= before.buffer1);
                }
                f += 1;
            }
            c += 1;
        }
        let ghost in0 = chain_input(dv0, filt, b as int, 0);
        proof {
            assert forall|k: int| 0 <= k < CHANNELS implies #[trigger] rows(self.buffer0@)[k]
                == in0[k] by {
                assert(rows(self.buffer0@)[k] == self.buffer0@[k]@);
                assert(self@.buffer0[k] == self.buffer0@[k]@);
                assert(self@.buffer0[k] =~= filt);
                assert(in0[k] == filt);
            }
            assert(rows(self.buffer0@) =~= in0);
        }

        // The diffusion cascade, alternating between the two buffers.
        let ghost in1 = chain_input(dv0, filt, b as int, 1);
        let ghost in2 = chain_input(dv0, filt, b as int, 2);
        let ghost in3 = chain_input(dv0, filt, b as int, 3);
        let ghost in4 = chain_input(dv0, filt, b as int, 4);
        proof {
            assert forall|i: int| 0 <= i < DIFFUSERS implies #[trigger] self.diffusers@[i]@
                == dv0[i] by {
                assert(self@.diffusers[i] == self.diffusers@[i]@);
            }
            assert forall|c: int| 0 <= c < CHANNELS implies (#[trigger] self.buffer0@[c])@.len()
                == b by {
                assert(self@.buffer0[c] == self.buffer0@[c]@);
            }
            assert forall|c: int| 0 <= c < CHANNELS implies (#[trigger] self.buffer1@[c])@.len()
                == b by {
                assert(self@.buffer1[c] == self.buffer1@[c]@);
            }
            assert forall|c: int, j: int|
                0 <= c < CHANNELS && 0 <= j < b implies -SAMPLE_LIMIT
                <= #[trigger] self.buffer0@[c]@[j] <= SAMPLE_LIMIT by {
                assert(rows(self.buffer0@)[c][j] == self.buffer0@[c]@[j]);
                assert(in0[c][j] == filt[j]);
            }
        }
        run_stage(&mut self.diffusers, 0, &self.buffer0, &mut self.buffer1);
        proof {
            assert(self@.diffusers[0] == self.diffusers@[0]@);
            assert(self@.diffusers[0] == dv0[0].state_at(in0, b as int));
            assert forall|i: int| 1 <= i < DIFFUSERS implies #[trigger] self@.diffusers[i]
                == dv0[i] by {
                assert(self@.diffusers[i] == self.diffusers@[i]@);
            }
            assert forall|c: int| 0 <= c < CHANNELS implies #[trigger] rows(self.buffer1@)[c]
                == in1[c] by {
                assert(in1[c] == Seq::new(b as nat, |f: int| dv0[0].block_out(in0, f)[c] as i64));
                assert(rows(self.buffer1@)[c] == self.buffer1@[c]@);
                assert(self.buffer1@[c]@.len() == b);
                assert forall|j: int| 0 <= j < b implies self.buffer1@[c]@[j] == in1[c][j] by {
                    assert(self.buffer1@[c]@[j] == dv0[0].block_out(in0, j)[c] as i64);
                }
                assert(self.buffer1@[c]@ =~= in1[c]);
            }
            assert(rows(self.buffer1@) =~= in1);
        }
        proof {
            assert(self.diffusers@[1int]@ == dv0[1]);
            assert forall|c: int| 0 <= c < CHANNELS implies (#[trigger] self.buffer0@[c])@.len()
                == b by {
                assert(self@.buffer0[c] == self.buffer0@[c]@);
            }
        }
        run_stage(&mut self.diffusers, 1, &self.buffer1, &mut self.buffer0);
        proof {
            assert(self@.diffusers[1] == self.diffusers@[1int]@);
            assert(self@.diffusers[1] == dv0[1].state_at(in1, b as int));
            assert(self@.diffusers[0] == self.diffusers@[0int]@);
            assert(self@.diffusers[0] == dv0[0].state_at(in0, b as int));
            assert forall|i: int| 2 <= i < DIFFUSERS implies #[trigger] self@.diffusers[i]
                == dv0[i] by {
                assert(self@.diffusers[i] == self.diffusers@[i]@);
            }
            assert forall|c: int| 0 <= c < CHANNELS implies #[trigger] rows(self.buffer0@)[c]
                == in2[c] by {
                assert(in2[c] == Seq::new(b as nat, |f: int| dv0[1].block_out(in1, f)[c] as i64));
                assert(rows(self.buffer0@)[c] == self.buffer0@[c]@);
                assert(self.buffer0@[c]@.len() == b);
                assert forall|j: int| 0 <= j < b implies self.buffer0@[c]@[j] == in2[c][j] by {
                    assert(self.buffer0@[c]@[j] == dv0[1].block_out(in1, j)[c] as i64);
                }
                assert(self.buffer0@[c]@ =~= in2[c]);
            }
            assert(rows(self.buffer0@) =~= in2);
        }
        proof {
            assert(self.diffusers@[2int]@ == dv0[2]);
            assert forall|c: int| 0 <= c < CHANNELS implies (#[trigger] self.buffer1@[c])@.len()
                == b by {
                assert(self@.buffer1[c] == self.buffer1@[c]@);
            }
        }
        run_stage(&mut self.diffusers, 2, &self.buffer0, &mut self.buffer1);
        proof {
            assert(self@.diffusers[2] == self.diffusers@[2int]@);
            assert(self@.diffusers[2] == dv0[2].state_at(in2, b as int));
            assert(self@.diffusers[0] == self.diffusers@[0int]@);
            assert(self@.diffusers[0] == dv0[0].state_at(in0, b as int));
            assert(self@.diffusers[1] == self.diffusers@[1int]@);
            assert(self@.diffusers[1] == dv0[1].state_at(in1, b as int));
            assert(self@.diffusers[3] == self.diffusers@[3int]@);
            assert(self@.diffusers[3] == dv0[3]);
            assert forall|c: int| 0 <= c < CHANNELS implies #[trigger] rows(self.buffer1@)[c]
                == in3[c] by {
                assert(in3[c] == Seq::new(b as nat, |f: int| dv0[2].block_out(in2, f)[c] as i64));
                assert(rows(self.buffer1@)[c] == self.buffer1@[c]@);
                assert(self.buffer1@[c]@.len() == b);
                assert forall|j: int| 0 <= j < b implies self.buffer1@[c]@[j] == in3[c][j] by {
                    assert(self.buffer1@[c]@[j] == dv0[2].block_out(in2, j)[c] as i64);
                }
                assert(self.buffer1@[c]@ =~= in3[c]);
            }
            assert(rows(self.buffer1@) =~= in3);
        }
        proof {
            assert(self.diffusers@[3int]@ == dv0[3]);
            assert forall|c: int| 0 <= c < CHANNELS implies (#[trigger] self.buffer0@[c])@.len()
                == b by {
                assert(self@.buffer0[c] == self.buffer0@[c]@);
            }
        }
        run_stage(&mut self.diffusers, 3, &self.buffer1, &mut self.buffer0);
        proof {
            assert(self@.diffusers[3] == self.diffusers@[3int]@);
            assert(self@.diffusers[3] == dv0[3].state_at(in3, b as int));
            assert(self@.diffusers[0] == self.diffusers@[0int]@);
            assert(self@.diffusers[0] == dv0[0].state_at(in0, b as int));
            assert(self@.diffusers[1] == self.diffusers@[1int]@);
            assert(self@.diffusers[1] == dv0[1].state_at(in1, b as int));
            assert(self@.diffusers[2] == self.diffusers@[2int]@);
            assert(self@.diffusers[2] == dv0[2].state_at(in2, b as int));
            assert forall|c: int| 0 <= c < CHANNELS implies #[trigger] rows(self.buffer0@)[c]
                == in4[c] by {
                assert(in4[c] == Seq::new(b as nat, |f: int| dv0[3].block_out(in3, f)[c] as i64));
                assert(rows(self.buffer0@)[c] == self.buffer0@[c]@);
                assert(self.buffer0@[c]@.len() == b);
                assert forall|j: int| 0 <= j < b implies self.buffer0@[c]@[j] == in4[c][j] by {
                    assert(self.buffer0@[c]@[j] == dv0[3].block_out(in3, j)[c] as i64);
                }
                assert(self.buffer0@[c]@ =~= in4[c]);
            }
            assert(rows(self.buffer0@) =~= in4);
            assert forall|c: int, j: int|
                0 <= c < CHANNELS && 0 <= j < b implies -SAMPLE_LIMIT <= #[trigger] in4[c][j]
                <= SAMPLE_LIMIT by {
                assert(in4[c][j] == self.buffer0@[c]@[j]);
            }
            assert(self@.tail == tail0);
        }

        // Early reflections: sum the last stage's channels, scaled by a half.
        let mut f: usize = 0;
        while f < b
            invariant
                f <= b,
                output@.len() == b,
                self@.tail == tail0,
                self@.ready(b as int),
                rows(self.buffer0@) == in4,
                self@.buffer0 =~= in4,
                forall|c: int, j: int|
                    0 <= c < CHANNELS && 0 <= j < b ==> -SAMPLE_LIMIT <= #[trigger] in4[c][j]
                        <= SAMPLE_LIMIT,
                forall|j: int|
                    0 <= j < f ==> #[trigger] output@[j] as int == qmul(
                        col_sum(in4, CHANNELS as int, j),
                        EARLY_REFLECTIONS_GAIN as int,
                    ),
                forall|j: int|
                    0 <= j < f ==> -4 * SAMPLE_LIMIT <= #[trigger] output@[j] <= 4 * SAMPLE_LIMIT,
            decreases b - f,
        {
            let mut acc: i64 = 0;
            proof {
                assert(ints(frame_of(in4, 0, f as int)) =~= Seq::<int>::empty());
            }
            let mut c: usize = 0;
            while c < CHANNELS
                invariant
                    c <= CHANNELS,
                    f < b,
                    acc as int == col_sum(in4, c as int, f as int),
                    -(c as int * SAMPLE_LIMIT) <= acc <= c as int * SAMPLE_LIMIT,
                decreases CHANNELS - c,
            {
                proof {
                    assert(self@.buffer0[c as int] == self.buffer0@[c as int]@);
                    assert(self@.buffer0[c as int] == in4[c as int]);
                }
                let x = self.buffer0[c][f];
                proof {
                    assert(x == in4[c as int][f as int]);
                    assert(ints(frame_of(in4, c as int + 1, f as int)).drop_last() =~= ints(
                        frame_of(in4, c as int, f as int),
                    ));
                    assert(ints(frame_of(in4, c as int + 1, f as int)).last() == x as int);
                }
                acc = acc + x;
                c += 1;
            }
            let e = mul_gain(acc, EARLY_REFLECTIONS_GAIN);
            proof {
                assert(-4 * SAMPLE_LIMIT <= e <= 4 * SAMPLE_LIMIT) by (nonlinear_arith)
                    requires
                        e == qmul(acc as int, EARLY_REFLECTIONS_GAIN as int),
                        acc >= 0 ==> 0 <= e <= (acc as int) * (EARLY_REFLECTIONS_GAIN as int) / (
                        UNIT as int),
                        acc < 0 ==> (acc as int) * (EARLY_REFLECTIONS_GAIN as int) / (UNIT as int)
                            <= e <= 0,
                        -(8 * SAMPLE_LIMIT) <= acc <= 8 * SAMPLE_LIMIT,
                        UNIT == 65536,
                        EARLY_REFLECTIONS_GAIN == 32768,
                        SAMPLE_LIMIT == 0x4_0000_0000_0000,
                ;
            }
            output[f] = e;
            f += 1;
        }

        // The damped feedback tail, fed by the last diffusion stage.
        let ghost tout = tail0.douts(b as int);
        self.tail.process_block(&self.buffer0, &mut self.buffer1, damping);
        proof {
            assert(self@.diffusers =~= Seq::new(
                self.diffusers@.len(),
                |k: int| self.diffusers@[k]@,
            ));
            assert(self@.diffusers[0] == dv0[0].state_at(in0, b as int));
            assert(self@.diffusers[1] == dv0[1].state_at(in1, b as int));
            assert(self@.diffusers[2] == dv0[2].state_at(in2, b as int));
            assert(self@.diffusers[3] == dv0[3].state_at(in3, b as int));
            assert forall|c: int| 0 <= c < CHANNELS implies #[trigger] rows(self.buffer1@)[c]
                == tout[c] by {
                assert(rows(self.buffer1@)[c] == self.buffer1@[c]@);
                assert(self.buffer1@[c]@ == tail0.delays[c].read_seq(b as int));
                assert(tout[c] == tail0.delays[c].read_seq(b as int));
            }
            assert forall|c: int, j: int|
                0 <= c < CHANNELS && 0 <= j < b implies -SAMPLE_LIMIT <= #[trigger] tout[c][j]
                <= SAMPLE_LIMIT by {
                assert(tout[c] == tail0.delays[c].read_seq(b as int));
                assert(tail0.delays[c].bounded(SAMPLE_LIMIT as int));
                assert(tout[c][j] == tail0.delays[c].data[crate::delay::wrap(
                    tail0.delays[c].cap(),
                    tail0.delays[c].read_index() + j,
                )]);
            }
            assert forall|c: int| 0 <= c < CHANNELS implies #[trigger] self@.tail.delays[c]
                == tail0.delays[c].write_seq(
                crate::tail::wb_from(
                    tail0.lowpass[c],
                    tail0.mixed_row(b as int, c),
                    tail0.gain,
                    in4[c],
                    damping@,
                    b as int,
                ),
            ) by {
                assert(self@.tail.delays[c] == tail0.delays[c].write_seq(
                    crate::tail::wb_from(
                        tail0.lowpass[c],
                        tail0.mixed_row(b as int, c),
                        tail0.gain,
                        self.buffer0@[c]@,
                        damping@,
                        b as int,
                    ),
                ));
            }
        }

        // Fold the tail's channels onto the early reflections, compensated.
        let mut f: usize = 0;
        while f < b
            invariant
                f <= b,
                output@.len() == b,
                self@.ready(b as int),
                rows(self.buffer1@) == tout,
                forall|c: int, j: int|
                    0 <= c < CHANNELS && 0 <= j < b ==> -SAMPLE_LIMIT <= #[trigger] tout[c][j]
                        <= SAMPLE_LIMIT,
                forall|j: int|
                    f <= j < b ==> #[trigger] output@[j] as int == qmul(
                        col_sum(in4, CHANNELS as int, j),
                        EARLY_REFLECTIONS_GAIN as int,
                    ),
                forall|j: int|
                    f <= j < b ==> -4 * SAMPLE_LIMIT <= #[trigger] output@[j] <= 4 * SAMPLE_LIMIT,
                forall|j: int|
                    0 <= j < f ==> #[trigger] output@[j] as int == out_sample(in4, tout, j),
                forall|j: int|
                    0 <= j < f ==> -SAMPLE_LIMIT <= #[trigger] output@[j] <= SAMPLE_LIMIT,
            decreases b - f,
        {
            let mut acc: i64 = 0;
            proof {
                assert(ints(frame_of(tout, 0, f as int)) =~= Seq::<int>::empty());
            }
            let mut c: usize = 0;
            while c < CHANNELS
                invariant
                    c <= CHANNELS,
                    f < b,
                    acc as int == col_sum(tout, c as int, f as int),
                    -(c as int * SAMPLE_LIMIT) <= acc <= c as int * SAMPLE_LIMIT,
                decreases CHANNELS - c,
            {
                proof {
                    assert(self@.buffer1[c as int] == self.buffer1@[c as int]@);
                    assert(rows(self.buffer1@)[c as int] == self.buffer1@[c as int]@);
                    assert(self@.buffer1[c as int] == tout[c as int]);
                }
                let x = self.buffer1[c][f];
                proof {
                    assert(x == tout[c as int][f as int]);
                    assert(ints(frame_of(tout, c as int + 1, f as int)).drop_last() =~= ints(
                        frame_of(tout, c as int, f as int),
                    ));
                    assert(ints(frame_of(tout, c as int + 1, f as int)).last() == x as int);
                }
                acc = acc + x;
                c += 1;
            }
            let o = output[f];
            let t = mul_gain(acc, COMPENSATION_GAIN);
            let s = crate::fixed::clip(o + t);
            proof {
                assert(s as int == out_sample(in4, tout, f as int));
            }
            output[f] = s;
            f += 1;
        }
        GenState::Continue
    }
}

} // verus!
