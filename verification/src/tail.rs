//! The feedback tail: delay lines mixed by the Householder reflection, scaled
//! by a feedback gain, damped by a one-pole low-pass per channel, and fed
//! back with fresh input.
//!
//! Each block, the tail emits the current delayed signal as it stood before
//! the update, then writes the mixed, scaled, damped and re-injected signal
//! back into the lines.

use vstd::prelude::*;

verus! {

use crate::delay::DelayLine;
use crate::delay::DelayView;
use crate::diffuser::frame_of;
use crate::fixed::FRAME_LIMIT;
use crate::fixed::GAIN_LIMIT;
use crate::fixed::SAMPLE_LIMIT;
use crate::fixed::UNIT;
use crate::fixed::clip;
use crate::fixed::clip_s;
use crate::fixed::lp_step;
use crate::fixed::mul_gain;
use crate::fixed::one_pole;
use crate::fixed::qmul;
use crate::mixer::Householder;
use crate::mixer::hh;
use crate::mixer::ints;
use crate::rng::gen_range_usize;

/// The one-pole low-pass state after `f` samples of the row `xs`, each first
/// scaled by the Q16 `gain`, with the damping coefficient taken per sample.
pub open spec fn lp_chain(y0: i64, xs: Seq<i64>, gain: i64, damping: Seq<i64>, f: int) -> int
    decreases f,
{
    if f <= 0 {
        y0 as int
    } else {
        lp_step(
            lp_chain(y0, xs, gain, damping, f - 1),
            qmul(xs[f - 1] as int, gain as int),
            damping[f - 1] as int,
        )
    }
}

/// The samples written back into one delay line over a block: the damped,
/// scaled mix plus the fresh input, saturated.
pub open spec fn wb_from(
    y0: i64,
    xs: Seq<i64>,
    gain: i64,
    inrow: Seq<i64>,
    damping: Seq<i64>,
    b: int,
) -> Seq<i64> {
    Seq::new(b as nat, |f: int| clip_s(lp_chain(y0, xs, gain, damping, f + 1) + inrow[f]) as i64)
}

/// Mathematical state of a tail: the feedback gain, one delay line and one
/// low-pass state per channel, and two scratch blocks.
pub struct TailView {
    pub gain: i64,
    pub delays: Seq<DelayView>,
    pub lowpass: Seq<i64>,
    pub scratch: Seq<Seq<i64>>,
    pub scratch1: Seq<Seq<i64>>,
}

impl TailView {
    pub open spec fn channels(self) -> int {
        self.delays.len() as int
    }

    pub open spec fn wf(self) -> bool {
        &&& 1 <= self.channels() <= 64
        &&& self.lowpass.len() == self.channels()
        &&& self.scratch.len() == self.channels()
        &&& self.scratch1.len() == self.channels()
        &&& 0 <= self.gain <= GAIN_LIMIT
        &&& forall|c: int|
            0 <= c < self.channels() ==> (#[trigger] self.delays[c]).wf() && self.delays[c].bounded(
                SAMPLE_LIMIT as int,
            )
        &&& forall|c: int|
            0 <= c < self.channels() ==> -SAMPLE_LIMIT <= #[trigger] self.lowpass[c]
                <= SAMPLE_LIMIT
    }

    /// Scratch blocks sized for a block of `b`, which fits every line.
    pub open spec fn ready(self, b: int) -> bool {
        &&& forall|c: int| 0 <= c < self.channels() ==> (#[trigger] self.scratch[c]).len() == b
        &&& forall|c: int| 0 <= c < self.channels() ==> (#[trigger] self.scratch1[c]).len() == b
        &&& forall|c: int| 0 <= c < self.channels() ==> b <= (#[trigger] self.delays[c]).len
    }

    /// The `b` oldest samples of every line: what the tail emits this block.
    pub open spec fn douts(self, b: int) -> Seq<Seq<i64>> {
        Seq::new(self.delays.len(), |c: int| self.delays[c].read_seq(b))
    }

    /// The Householder mix of the emitted frame at block index `f`.
    pub open spec fn mixed_col(self, b: int, f: int) -> Seq<int> {
        hh(ints(frame_of(self.douts(b), self.channels(), f)))
    }

    /// Channel `c` of the mixed signal over a whole block.
    pub open spec fn mixed_row(self, b: int, c: int) -> Seq<i64> {
        Seq::new(b as nat, |f: int| self.mixed_col(b, f)[c] as i64)
    }
}

/// A feedback loop of delay lines mixed through the Householder reflection.
pub struct Tail {
    feedback_gain: i64,
    delays: Vec<DelayLine>,
    lowpass_state: Vec<i64>,
    scratch: Vec<Vec<i64>>,
    scratch1: Vec<Vec<i64>>,
    frame_scratch: Vec<i64>,
}

impl View for Tail {
    type V = TailView;

    closed spec fn view(&self) -> TailView {
        TailView {
            gain: self.feedback_gain,
            delays: Seq::new(self.delays@.len(), |c: int| self.delays@[c]@),
            lowpass: self.lowpass_state@,
            scratch: Seq::new(self.scratch@.len(), |c: int| self.scratch@[c]@),
            scratch1: Seq::new(self.scratch1@.len(), |c: int| self.scratch1@[c]@),
        }
    }
}

impl Tail {
    /// The per-frame working buffer is sized to the channel count, so
    /// processing a block never allocates.
    pub closed spec fn scratch_ok(&self) -> bool {
        self.frame_scratch@.len() == self.delays@.len()
    }

    /// A tail of `channels` lines with random lengths between a tenth of the
    /// target delay and the full target, and the given Q16 feedback gain.
    ///
    /// A bounded decay asks for a gain below `UNIT` (one); larger gains up to
    /// `GAIN_LIMIT` are the caller's risk, as every write still saturates.
    pub fn new(channels: usize, delay_length_in_samples: usize, feedback: i64) -> (r: Tail)
        requires
            1 <= channels <= 64,
            10 <= delay_length_in_samples <= crate::delay::MAX_CAPACITY,
            0 <= feedback <= GAIN_LIMIT,
        ensures
            r@.wf(),
            r@.channels() == channels,
            r@.gain == feedback,
            forall|c: int|
                0 <= c < channels ==> delay_length_in_samples as int / 10 <= (
                #[trigger] r@.delays[c]).len < delay_length_in_samples,
            forall|c: int| 0 <= c < channels ==> #[trigger] r@.lowpass[c] == 0i64,
            r.scratch_ok(),
    {
        let time_min = delay_length_in_samples / 10;
        let time_max = delay_length_in_samples;
        let mut delays: Vec<DelayLine> = Vec::new();
        let mut lowpass_state: Vec<i64> = Vec::new();
        let mut scratch: Vec<Vec<i64>> = Vec::new();
        let mut scratch1: Vec<Vec<i64>> = Vec::new();
        let mut c: usize = 0;
        while c < channels
            invariant
                c <= channels,
                time_min == delay_length_in_samples as int / 10,
                1 <= time_min < time_max <= crate::delay::MAX_CAPACITY,
                delays@.len() == c,
                lowpass_state@.len() == c,
                scratch@.len() == c,
                scratch1@.len() == c,
                forall|k: int|
                    0 <= k < c ==> time_min <= (#[trigger] delays@[k]@).len < time_max,
                forall|k: int|
                    0 <= k < c ==> (#[trigger] delays@[k]@).wf() && delays@[k]@.bounded(
                        SAMPLE_LIMIT as int,
                    ),
                forall|k: int| 0 <= k < c ==> #[trigger] lowpass_state@[k] == 0i64,
            decreases channels - c,
        {
            let time = gen_range_usize(time_min, time_max);
            delays.push(DelayLine::new(time));
            lowpass_state.push(0);
            scratch.push(Vec::new());
            scratch1.push(Vec::new());
            c += 1;
        }
        let mut frame_scratch: Vec<i64> = Vec::new();
        let mut i: usize = 0;
        while i < channels
            invariant
                i <= channels,
                frame_scratch@.len() == i,
            decreases channels - i,
        {
            frame_scratch.push(0);
            i += 1;
        }
        Tail { feedback_gain: feedback, delays, lowpass_state, scratch, scratch1, frame_scratch }
    }

    /// Size the scratch blocks for a block of `block_size`; not real-time
    /// safe. The delay lines and filter states are untouched.
    pub fn init(&mut self, block_size: usize)
        requires
            old(self)@.wf(),
        ensures
            final(self)@.wf(),
            final(self).scratch_ok() == old(self).scratch_ok(),
            final(self)@.gain == old(self)@.gain,
            final(self)@.delays == old(self)@.delays,
            final(self)@.lowpass == old(self)@.lowpass,
            forall|c: int|
                0 <= c < final(self)@.channels() ==> (#[trigger] final(self)@.scratch[c]).len()
                    == block_size,
            forall|c: int|
                0 <= c < final(self)@.channels() ==> (#[trigger] final(self)@.scratch1[c]).len()
                    == block_size,
    {
        let channels = self.delays.len();
        let mut scratch: Vec<Vec<i64>> = Vec::new();
        let mut scratch1: Vec<Vec<i64>> = Vec::new();
        let mut c: usize = 0;
        while c < channels
            invariant
                c <= channels,
                scratch@.len() == c,
                scratch1@.len() == c,
                forall|k: int| 0 <= k < c ==> (#[trigger] scratch@[k])@.len() == block_size,
                forall|k: int| 0 <= k < c ==> (#[trigger] scratch1@[k])@.len() == block_size,
            decreases channels - c,
        {
            let mut row: Vec<i64> = Vec::new();
            let mut row1: Vec<i64> = Vec::new();
            let mut f: usize = 0;
            while f < block_size
                invariant
                    f <= block_size,
                    row@.len() == f,
                    row1@.len() == f,
                decreases block_size - f,
            {
                row.push(0);
                row1.push(0);
                f += 1;
            }
            scratch.push(row);
            scratch1.push(row1);
            c += 1;
        }
        self.scratch = scratch;
        self.scratch1 = scratch1;
    }

    /// The number of channels.
    pub fn channels(&self) -> (r: usize)
        ensures
            r == self@.channels(),
    {
        self.delays.len()
    }

    /// Fill the scratch block with each line's `b` oldest samples.
    #[verifier::loop_isolation(false)]
    fn read_into_scratch(&mut self, b: usize)
        requires
            old(self)@.wf(),
            old(self)@.ready(b as int),
            old(self).scratch_ok(),
        ensures
            final(self)@.wf(),
            final(self).scratch_ok(),
            final(self)@.gain == old(self)@.gain,
            final(self)@.delays == old(self)@.delays,
            final(self)@.lowpass == old(self)@.lowpass,
            final(self)@.scratch1 == old(self)@.scratch1,
            final(self)@.scratch.len() == old(self)@.channels(),
            forall|c: int|
                0 <= c < old(self)@.channels() ==> #[trigger] final(self)@.scratch[c] == old(
                    self,
                )@.delays[c].read_seq(b as int),
    {
        let channels = self.delays.len();
        let mut c: usize = 0;
        while c < channels
            invariant
                c <= channels,
                channels == self@.channels(),
                self@.wf(),
                self@.ready(b as int),
                self.scratch_ok(),
                self@.gain == old(self)@.gain,
                self@.delays == old(self)@.delays,
                self@.lowpass == old(self)@.lowpass,
                self@.scratch1 == old(self)@.scratch1,
                forall|k: int|
                    0 <= k < c ==> #[trigger] self@.scratch[k] == old(self)@.delays[k].read_seq(
                        b as int,
                    ),
            decreases channels - c,
        {
            let ghost before = self@;
            let line = &self.delays[c];
            let row = &mut self.scratch[c];
            proof {
                assert(line@ == before.delays[c as int]);
                assert(row@ == before.scratch[c as int]);
            }
            line.read_block(row);
            proof {
                assert forall|k: int|
                    0 <= k < channels && k != c implies #[trigger] self@.scratch[k]
                    == before.scratch[k] by {}
                assert(self@.scratch[c as int] == before.delays[c as int].read_seq(b as int));
                assert(self@.delays =~= before.delays);
                assert(self@.scratch1 =~= before.scratch1);
            }
            c += 1;
        }
    }

    /// Copy the scratch block, channel by channel, into the output block.
    #[verifier::loop_isolation(false)]
    fn copy_to_output(&self, b: usize, output: &mut Vec<Vec<i64>>)
        requires
            self@.wf(),
            self@.ready(b as int),
            old(output)@.len() == self@.channels(),
            forall|c: int|
                0 <= c < old(output)@.len() ==> (#[trigger] old(output)@[c])@.len() == b,
        ensures
            final(output)@.len() == old(output)@.len(),
            forall|c: int|
                0 <= c < final(output)@.len() ==> (#[trigger] final(output)@[c])@ == self@.scratch[c],
    {
        let channels = self.delays.len();
        let mut c: usize = 0;
        while c < channels
            invariant
                c <= channels,
                channels == self@.channels(),
                self@.wf(),
                self@.ready(b as int),
                output@.len() == channels,
                forall|k: int| 0 <= k < channels ==> (#[trigger] output@[k])@.len() == b,
                forall|k: int| 0 <= k < c ==> (#[trigger] output@[k])@ == self@.scratch[k],
            decreases channels - c,
        {
            let mut f: usize = 0;
            while f < b
                invariant
                    f <= b,
                    c < channels,
                    channels == self@.channels(),
                    self@.wf(),
                    self@.ready(b as int),
                    output@.len() == channels,
                    forall|k: int| 0 <= k < channels ==> (#[trigger] output@[k])@.len() == b,
                    forall|k: int| 0 <= k < c ==> (#[trigger] output@[k])@ == self@.scratch[k],
                    forall|j: int|
                        0 <= j < f ==> #[trigger] output@[c as int]@[j] == self@.scratch[c as int][j],
                decreases b - f,
            {
                proof {
                    assert(self@.scratch[c as int] == self.scratch@[c as int]@);
                }
                let v = self.scratch[c][f];
                let row = &mut output[c];
                row[f] = v;
                f += 1;
            }
            proof {
                assert(output@[c as int]@ =~= self@.scratch[c as int]);
            }
            c += 1;
        }
    }

    /// Replace every frame of the scratch block with its Householder mix.
    #[verifier::loop_isolation(false)]
    fn mix_frames(&mut self, b: usize)
        requires
            old(self)@.wf(),
            old(self)@.ready(b as int),
            old(self).scratch_ok(),
            forall|c: int, f: int|
                0 <= c < old(self)@.channels() && 0 <= f < b ==> -SAMPLE_LIMIT
                    <= #[trigger] old(self)@.scratch[c][f] <= SAMPLE_LIMIT,
        ensures
            final(self)@.wf(),
            final(self)@.ready(b as int),
            final(self).scratch_ok(),
            final(self)@.gain == old(self)@.gain,
            final(self)@.delays == old(self)@.delays,
            final(self)@.lowpass == old(self)@.lowpass,
            final(self)@.scratch1 == old(self)@.scratch1,
            final(self)@.scratch.len() == old(self)@.channels(),
            forall|c: int|
                0 <= c < old(self)@.channels() ==> (#[trigger] final(self)@.scratch[c]).len() == b,
            forall|c: int, f: int|
                0 <= c < old(self)@.channels() && 0 <= f < b
                    ==> #[trigger] final(self)@.scratch[c][f] == hh(
                    ints(frame_of(old(self)@.scratch, old(self)@.channels(), f)),
                )[c] as i64,
            forall|c: int, f: int|
                0 <= c < old(self)@.channels() && 0 <= f < b ==> -3 * SAMPLE_LIMIT
                    <= #[trigger] final(self)@.scratch[c][f] <= 3 * SAMPLE_LIMIT,
    {
        let channels = self.delays.len();
        proof {
            assert(self.frame_scratch@.len() == channels);
        }
        let mut f: usize = 0;
        while f < b
            invariant
                f <= b,
                self.frame_scratch@.len() == channels,
                channels == self@.channels(),
                self@.wf(),
                self@.ready(b as int),
                self@.gain == old(self)@.gain,
                self@.delays == old(self)@.delays,
                self@.lowpass == old(self)@.lowpass,
                self@.scratch1 == old(self)@.scratch1,
                self@.scratch.len() == channels,
                forall|k: int| 0 <= k < channels ==> (#[trigger] self@.scratch[k]).len() == b,
                forall|k: int, j: int|
                    0 <= k < channels && (f <= j < b) ==> #[trigger] self@.scratch[k][j] == old(
                        self,
                    )@.scratch[k][j],
                forall|k: int, j: int|
                    0 <= k < channels && 0 <= j < f ==> #[trigger] self@.scratch[k][j] == hh(
                        ints(frame_of(old(self)@.scratch, channels as int, j)),
                    )[k] as i64,
                forall|k: int, j: int|
                    0 <= k < channels && 0 <= j < f ==> -3 * SAMPLE_LIMIT
                        <= #[trigger] self@.scratch[k][j] <= 3 * SAMPLE_LIMIT,
            decreases b - f,
        {
            let ghost col = frame_of(old(self)@.scratch, channels as int, f as int);
            let mut c: usize = 0;
            while c < channels
                invariant
                    c <= channels,
                    f < b,
                    self.frame_scratch@.len() == channels,
                    channels == self@.channels(),
                    self@.wf(),
                    self@.ready(b as int),
                    self@.gain == old(self)@.gain,
                    self@.delays == old(self)@.delays,
                    self@.lowpass == old(self)@.lowpass,
                    self@.scratch1 == old(self)@.scratch1,
                    self@.scratch.len() == channels,
                    col == frame_of(old(self)@.scratch, channels as int, f as int),
                    forall|k: int| 0 <= k < channels ==> (#[trigger] self@.scratch[k]).len() == b,
                    forall|k: int, j: int|
                        0 <= k < channels && (f <= j < b) ==> #[trigger] self@.scratch[k][j] == old(
                            self,
                        )@.scratch[k][j],
                    forall|k: int, j: int|
                        0 <= k < channels && 0 <= j < f ==> #[trigger] self@.scratch[k][j] == hh(
                            ints(frame_of(old(self)@.scratch, channels as int, j)),
                        )[k] as i64,
                    forall|k: int, j: int|
                        0 <= k < channels && 0 <= j < f ==> -3 * SAMPLE_LIMIT
                            <= #[trigger] self@.scratch[k][j] <= 3 * SAMPLE_LIMIT,
                    forall|k: int, j: int|
                        0 <= k < channels && 0 <= j < b ==> -SAMPLE_LIMIT <= #[trigger] old(
                            self,
                        )@.scratch[k][j] <= SAMPLE_LIMIT,
                    forall|k: int| 0 <= k < c ==> #[trigger] self.frame_scratch@[k] == col[k],
                decreases channels - c,
            {
                proof {
                    assert(self@.scratch[c as int] == self.scratch@[c as int]@);
                }
                let v = self.scratch[c][f];
                proof {
                    assert(v == self@.scratch[c as int][f as int]);
                    assert(v == old(self)@.scratch[c as int][f as int]);
                    assert(col[c as int] == old(self)@.scratch[c as int][f as int]);
                }
                let ghost before_read = self@;
                self.frame_scratch[c] = v;
                proof {
                    assert(self@.delays =~= before_read.delays);
                    assert(self@.scratch =~= before_read.scratch);
                    assert(self@.scratch1 =~= before_read.scratch1);
                }
                c += 1;
            }
            proof {
                assert forall|k: int|
                    0 <= k < channels implies -FRAME_LIMIT <= #[trigger] self.frame_scratch@[k]
                    <= FRAME_LIMIT by {
                    assert(self.frame_scratch@[k] == col[k]);
                    assert(col[k] == old(self)@.scratch[k][f as int]);
                }
            }
            let ghost chan_before = self.frame_scratch@;
            let ghost before_mix = self@;
            proof {
                assert(chan_before =~= col);
            }
            Householder::in_place(&mut self.frame_scratch);
            proof {
                assert(self@.delays =~= before_mix.delays);
                assert(self@.scratch =~= before_mix.scratch);
                assert(self@.scratch1 =~= before_mix.scratch1);
                assert(ints(self.frame_scratch@) == hh(ints(chan_before)));
                assert(ints(self.frame_scratch@) == hh(ints(col)));
                crate::mixer::lemma_hh_bound(ints(col), SAMPLE_LIMIT as int);
                assert forall|k: int| 0 <= k < channels implies -3 * SAMPLE_LIMIT
                    <= #[trigger] self.frame_scratch@[k] <= 3 * SAMPLE_LIMIT by {
                    assert(self.frame_scratch@[k] as int == ints(self.frame_scratch@)[k]);
                    assert(ints(self.frame_scratch@)[k] == hh(ints(col))[k]);
                    assert(ints(col)[k] == col[k] as int);
                    assert(-SAMPLE_LIMIT <= col[k] <= SAMPLE_LIMIT);
                }
            }
            let mut c: usize = 0;
            while c < channels
                invariant
                    c <= channels,
                    f < b,
                    self.frame_scratch@.len() == channels,
                    channels == self@.channels(),
                    self@.wf(),
                    self@.ready(b as int),
                    self@.gain == old(self)@.gain,
                    self@.delays == old(self)@.delays,
                    self@.lowpass == old(self)@.lowpass,
                    self@.scratch1 == old(self)@.scratch1,
                    self@.scratch.len() == channels,
                    col == frame_of(old(self)@.scratch, channels as int, f as int),
                    ints(self.frame_scratch@) == hh(ints(col)),
                    forall|k: int|
                        0 <= k < channels ==> -3 * SAMPLE_LIMIT <= #[trigger] self.frame_scratch@[k]
                            <= 3 * SAMPLE_LIMIT,
                    forall|k: int| 0 <= k < channels ==> (#[trigger] self@.scratch[k]).len() == b,
                    forall|k: int, j: int|
                        0 <= k < channels && (f < j < b || (j == f && c <= k)) ==> #[trigger] self@.scratch[k][j]
                            == old(self)@.scratch[k][j],
                    forall|k: int, j: int|
                        0 <= k < channels && 0 <= j < f ==> #[trigger] self@.scratch[k][j] == hh(
                            ints(frame_of(old(self)@.scratch, channels as int, j)),
                        )[k] as i64,
                    forall|k: int, j: int|
                        0 <= k < channels && 0 <= j < f ==> -3 * SAMPLE_LIMIT
                            <= #[trigger] self@.scratch[k][j] <= 3 * SAMPLE_LIMIT,
                    forall|k: int|
                        0 <= k < c ==> #[trigger] self@.scratch[k][f as int]
                            == self.frame_scratch@[k],
                decreases channels - c,
            {
                let ghost before = self@;
                let v = self.frame_scratch[c];
                proof {
                    assert(self@.scratch[c as int] == self.scratch@[c as int]@);
                }
                let row = &mut self.scratch[c];
                row[f] = v;
                proof {
                    assert forall|k: int|
                        0 <= k < channels && k != c implies #[trigger] self@.scratch[k]
                        == before.scratch[k] by {}
                    assert(self@.scratch[c as int] == before.scratch[c as int].update(f as int, v));
                    assert(self@.delays =~= before.delays);
                    assert(self@.scratch1 =~= before.scratch1);
                }
                c += 1;
            }
            proof {
                assert forall|k: int| 0 <= k < channels implies #[trigger] self@.scratch[k][f as int]
                    == hh(ints(frame_of(old(self)@.scratch, channels as int, f as int)))[k] as i64
                    by {
                    assert(self@.scratch[k][f as int] == self.frame_scratch@[k]);
                    assert(self.frame_scratch@[k] as int == ints(self.frame_scratch@)[k]);
                }
            }
            f += 1;
        }
    }

    /// Scale the mixed scratch block by the feedback gain, damp it through
    /// each channel's one-pole low-pass, add the fresh input, and write the
    /// saturated result back into the delay lines.
    #[verifier::loop_isolation(false)]
    fn feed_back(&mut self, input: &Vec<Vec<i64>>, damping: &Vec<i64>, b: usize)
        requires
            old(self)@.wf(),
            old(self)@.ready(b as int),
            old(self).scratch_ok(),
            input@.len() == old(self)@.channels(),
            forall|c: int| 0 <= c < input@.len() ==> (#[trigger] input@[c])@.len() == b,
            forall|c: int, f: int|
                0 <= c < input@.len() && 0 <= f < b ==> -SAMPLE_LIMIT <= #[trigger] input@[c]@[f]
                    <= SAMPLE_LIMIT,
            damping@.len() == b,
            forall|f: int| 0 <= f < b ==> 0 <= #[trigger] damping@[f] <= UNIT,
            forall|c: int, f: int|
                0 <= c < old(self)@.channels() && 0 <= f < b ==> -3 * SAMPLE_LIMIT
                    <= #[trigger] old(self)@.scratch[c][f] <= 3 * SAMPLE_LIMIT,
        ensures
            final(self)@.wf(),
            final(self)@.ready(b as int),
            final(self).scratch_ok(),
            final(self)@.gain == old(self)@.gain,
            final(self)@.scratch == old(self)@.scratch,
            final(self)@.delays.len() == old(self)@.channels(),
            final(self)@.lowpass.len() == old(self)@.channels(),
            forall|c: int|
                0 <= c < old(self)@.channels() ==> #[trigger] final(self)@.lowpass[c] as int
                    == lp_chain(
                    old(self)@.lowpass[c],
                    old(self)@.scratch[c],
                    old(self)@.gain,
                    damping@,
                    b as int,
                ),
            forall|c: int|
                0 <= c < old(self)@.channels() ==> #[trigger] final(self)@.delays[c] == old(
                    self,
                )@.delays[c].write_seq(
                    wb_from(
                        old(self)@.lowpass[c],
                        old(self)@.scratch[c],
                        old(self)@.gain,
                        input@[c]@,
                        damping@,
                        b as int,
                    ),
                ),
    {
        let channels = self.delays.len();
        let gain = self.feedback_gain;
        let mut c: usize = 0;
        while c < channels
            invariant
                c <= channels,
                channels == self@.channels(),
                gain == old(self)@.gain,
                self@.wf(),
                self@.ready(b as int),
                self.scratch_ok(),
                self@.gain == old(self)@.gain,
                self@.scratch == old(self)@.scratch,
                input@.len() == channels,
                forall|k: int| 0 <= k < channels ==> (#[trigger] input@[k])@.len() == b,
                forall|k: int, j: int|
                    0 <= k < channels && 0 <= j < b ==> -SAMPLE_LIMIT <= #[trigger] input@[k]@[j]
                        <= SAMPLE_LIMIT,
                damping@.len() == b,
                forall|j: int| 0 <= j < b ==> 0 <= #[trigger] damping@[j] <= UNIT,
                forall|k: int, j: int|
                    0 <= k < channels && 0 <= j < b ==> -3 * SAMPLE_LIMIT
                        <= #[trigger] old(self)@.scratch[k][j] <= 3 * SAMPLE_LIMIT,
                forall|k: int|
                    c <= k < channels ==> #[trigger] self@.delays[k] == old(self)@.delays[k],
                forall|k: int|
                    c <= k < channels ==> #[trigger] self@.lowpass[k] == old(self)@.lowpass[k],
                forall|k: int|
                    0 <= k < c ==> #[trigger] self@.lowpass[k] as int == lp_chain(
                        old(self)@.lowpass[k],
                        old(self)@.scratch[k],
                        old(self)@.gain,
                        damping@,
                        b as int,
                    ),
                forall|k: int|
                    0 <= k < c ==> #[trigger] self@.delays[k] == old(self)@.delays[k].write_seq(
                        wb_from(
                            old(self)@.lowpass[k],
                            old(self)@.scratch[k],
                            old(self)@.gain,
                            input@[k]@,
                            damping@,
                            b as int,
                        ),
                    ),
            decreases channels - c,
        {
            let ghost chbase = self@;
            let ghost xs = old(self)@.scratch[c as int];
            let ghost y0 = old(self)@.lowpass[c as int];
            let ghost wb = wb_from(y0, xs, gain, input@[c as int]@, damping@, b as int);
            let mut y: i64 = self.lowpass_state[c];
            proof {
                assert(y == y0);
                assert(y as int == lp_chain(y0, xs, gain, damping@, 0));
            }
            let mut f: usize = 0;
            while f < b
                invariant
                    f <= b,
                    c < channels,
                    channels == self@.channels(),
                    gain == old(self)@.gain,
                    0 <= gain <= GAIN_LIMIT,
                    self@.wf(),
                    self@.ready(b as int),
                    self.scratch_ok(),
                    self@.gain == old(self)@.gain,
                    self@.scratch == old(self)@.scratch,
                    self@.delays == chbase.delays,
                    self@.lowpass == chbase.lowpass,
                    chbase.lowpass[c as int] == y0,
                    xs == old(self)@.scratch[c as int],
                    y0 == old(self)@.lowpass[c as int],
                    wb == wb_from(y0, xs, gain, input@[c as int]@, damping@, b as int),
                    input@.len() == channels,
                    forall|k: int| 0 <= k < channels ==> (#[trigger] input@[k])@.len() == b,
                    forall|k: int, j: int|
                        0 <= k < channels && 0 <= j < b ==> -SAMPLE_LIMIT
                            <= #[trigger] input@[k]@[j] <= SAMPLE_LIMIT,
                    damping@.len() == b,
                    forall|j: int| 0 <= j < b ==> 0 <= #[trigger] damping@[j] <= UNIT,
                    forall|k: int, j: int|
                        0 <= k < channels && 0 <= j < b ==> -3 * SAMPLE_LIMIT
                            <= #[trigger] old(self)@.scratch[k][j] <= 3 * SAMPLE_LIMIT,
                    y as int == lp_chain(y0, xs, gain, damping@, f as int),
                    -SAMPLE_LIMIT <= y <= SAMPLE_LIMIT,
                    (#[trigger] self@.scratch1[c as int]).len() == b,
                    forall|j: int|
                        0 <= j < f ==> #[trigger] self@.scratch1[c as int][j] == wb[j],
                    forall|k: int|
                        0 <= k < channels && k != c ==> #[trigger] self@.scratch1[k]
                            == chbase.scratch1[k],
                decreases b - f,
            {
                proof {
                    assert(self@.scratch[c as int] == self.scratch@[c as int]@);
                }
                let x = self.scratch[c][f];
                proof {
                    assert(x == old(self)@.scratch[c as int][f as int]);
                    assert(-3 * SAMPLE_LIMIT <= x <= 3 * SAMPLE_LIMIT);
                }
                let g = mul_gain(x, gain);
                proof {
                    assert(-FRAME_LIMIT <= g <= FRAME_LIMIT) by (nonlinear_arith)
                        requires
                            g == qmul(x as int, gain as int),
                            x >= 0 ==> 0 <= g <= (x as int) * (gain as int) / (UNIT as int),
                            x < 0 ==> (x as int) * (gain as int) / (UNIT as int) <= g <= 0,
                            -3 * SAMPLE_LIMIT <= x <= 3 * SAMPLE_LIMIT,
                            0 <= gain <= GAIN_LIMIT,
                            UNIT == 65536,
                            GAIN_LIMIT == 262144,
                            SAMPLE_LIMIT == 0x4_0000_0000_0000,
                            FRAME_LIMIT == 0x100_0000_0000_0000,
                    ;
                }
                let d = damping[f];
                let y2 = one_pole(y, g, d);
                let ghost before = self@;
                let s = clip(y2 + input[c][f]);
                proof {
                    assert(self@.scratch1[c as int] == self.scratch1@[c as int]@);
                }
                let row = &mut self.scratch1[c];
                row[f] = s;
                proof {
                    assert forall|k: int|
                        0 <= k < channels && k != c implies #[trigger] self@.scratch1[k]
                        == before.scratch1[k] by {}
                    assert(self@.scratch1[c as int] == before.scratch1[c as int].update(
                        f as int,
                        s,
                    ));
                    assert(self@.delays =~= before.delays);
                    assert(self@.scratch =~= before.scratch);
                    assert(y2 as int == lp_chain(y0, xs, gain, damping@, f as int + 1));
                    assert(wb[f as int] == clip_s(
                        lp_chain(y0, xs, gain, damping@, f as int + 1) + input@[c as int]@[f as int],
                    ) as i64);
                    assert(s == wb[f as int]);
                }
                y = y2;
                f += 1;
            }
            let ghost before = self@;
            self.lowpass_state[c] = y;
            proof {
                assert(self@.lowpass =~= before.lowpass.update(c as int, y));
                assert(self@.delays =~= before.delays);
                assert(self@.scratch =~= before.scratch);
                assert(self@.scratch1 =~= before.scratch1);
            }
            let ghost before2 = self@;
            proof {
                assert(self@.scratch1[c as int] == self.scratch1@[c as int]@);
            }
            let row = &self.scratch1[c];
            proof {
                assert(row@ =~= wb);
            }
            let line = &mut self.delays[c];
            proof {
                assert(line@ == chbase.delays[c as int]);
                assert(line@ == old(self)@.delays[c as int]);
            }
            line.write_block_and_advance(row);
            proof {
                assert forall|k: int|
                    0 <= k < channels && k != c implies #[trigger] self@.delays[k]
                    == before2.delays[k] by {}
                assert(self@.delays[c as int] == old(self)@.delays[c as int].write_seq(wb));
                assert(self@.lowpass =~= before2.lowpass);
                assert(self@.scratch =~= before2.scratch);
                assert(self@.scratch1 =~= before2.scratch1);
                crate::delay::lemma_write_seq_wf(old(self)@.delays[c as int], wb);
                assert forall|j: int| 0 <= j < wb.len() implies -SAMPLE_LIMIT <= #[trigger] wb[j]
                    <= SAMPLE_LIMIT by {}
                crate::delay::lemma_write_seq_bounded(
                    old(self)@.delays[c as int],
                    wb,
                    SAMPLE_LIMIT as int,
                );
            }
            c += 1;
        }
    }

    /// One block of the tail: emit each line's pre-update content, then mix
    /// the emitted frames by the Householder reflection, scale by the
    /// feedback gain, damp per channel by the Q16 `damping` coefficients
    /// (recomputed per sample), add the fresh input, and write the saturated
    /// result back into the lines.
    #[verifier::loop_isolation(false)]
    pub fn process_block(
        &mut self,
        input: &Vec<Vec<i64>>,
        output: &mut Vec<Vec<i64>>,
        damping: &Vec<i64>,
    )
        requires
            old(self)@.wf(),
            input@.len() == old(self)@.channels(),
            input@.len() >= 1,
            forall|c: int|
                0 <= c < input@.len() ==> (#[trigger] input@[c])@.len() == input@[0]@.len(),
            old(self)@.ready(input@[0]@.len() as int),
            old(output)@.len() == old(self)@.channels(),
            forall|c: int|
                0 <= c < old(output)@.len() ==> (#[trigger] old(output)@[c])@.len()
                    == input@[0]@.len(),
            forall|c: int, f: int|
                0 <= c < input@.len() && 0 <= f < input@[c]@.len() ==> -SAMPLE_LIMIT
                    <= #[trigger] input@[c]@[f] <= SAMPLE_LIMIT,
            damping@.len() == input@[0]@.len(),
            forall|f: int| 0 <= f < damping@.len() ==> 0 <= #[trigger] damping@[f] <= UNIT,
            old(self).scratch_ok(),
        ensures
            final(self)@.wf(),
            final(self)@.ready(input@[0]@.len() as int),
            final(self).scratch_ok(),
            final(self)@.gain == old(self)@.gain,
            final(self)@.channels() == old(self)@.channels(),
            final(output)@.len() == old(output)@.len(),
            forall|c: int|
                0 <= c < final(output)@.len() ==> #[trigger] final(output)@[c]@ == old(
                    self,
                )@.delays[c].read_seq(input@[0]@.len() as int),
            forall|c: int|
                0 <= c < old(self)@.channels() ==> #[trigger] final(self)@.lowpass[c] as int
                    == lp_chain(
                    old(self)@.lowpass[c],
                    old(self)@.mixed_row(input@[0]@.len() as int, c),
                    old(self)@.gain,
                    damping@,
                    input@[0]@.len() as int,
                ),
            forall|c: int|
                0 <= c < old(self)@.channels() ==> #[trigger] final(self)@.delays[c] == old(
                    self,
                )@.delays[c].write_seq(
                    wb_from(
                        old(self)@.lowpass[c],
                        old(self)@.mixed_row(input@[0]@.len() as int, c),
                        old(self)@.gain,
                        input@[c]@,
                        damping@,
                        input@[0]@.len() as int,
                    ),
                ),
    {
        let b = input[0].len();
        let ghost v0 = old(self)@;
        self.read_into_scratch(b);
        self.copy_to_output(b, output);
        proof {
            assert forall|c: int, f: int|
                0 <= c < self@.channels() && 0 <= f < b implies -SAMPLE_LIMIT
                <= #[trigger] self@.scratch[c][f] <= SAMPLE_LIMIT by {
                assert(self@.scratch[c] == v0.delays[c].read_seq(b as int));
                assert(v0.delays[c].bounded(SAMPLE_LIMIT as int));
                assert(self@.scratch[c][f] == v0.delays[c].data[crate::delay::wrap(
                    v0.delays[c].cap(),
                    v0.delays[c].read_index() + f,
                )]);
            }
            assert forall|c: int| 0 <= c < output@.len() implies #[trigger] output@[c]@
                == v0.delays[c].read_seq(b as int) by {
                assert(output@[c]@ == self@.scratch[c]);
            }
        }
        let ghost v1 = self@;
        self.mix_frames(b);
        proof {
            assert(v1.scratch =~= v0.douts(b as int));
            assert forall|c: int| 0 <= c < self@.channels() implies #[trigger] self@.scratch[c]
                =~= v0.mixed_row(b as int, c) by {
                assert forall|f: int| 0 <= f < b implies self@.scratch[c][f] == v0.mixed_col(
                    b as int,
                    f,
                )[c] as i64 by {
                    assert(self@.scratch[c][f] == hh(
                        ints(frame_of(v1.scratch, v1.channels(), f)),
                    )[c] as i64);
                    assert(frame_of(v1.scratch, v1.channels(), f) =~= frame_of(
                        v0.douts(b as int),
                        v0.channels(),
                        f,
                    ));
                }
                assert((#[trigger] self@.scratch[c]).len() == b);
            }
        }
        let ghost v2 = self@;
        self.feed_back(input, damping, b);
        proof {
            assert(v2.lowpass == v0.lowpass);
            assert(v2.delays == v0.delays);
            assert(v2.gain == v0.gain);
            assert forall|c: int| 0 <= c < v0.channels() implies #[trigger] self@.lowpass[c] as int
                == lp_chain(
                v0.lowpass[c],
                v0.mixed_row(b as int, c),
                v0.gain,
                damping@,
                b as int,
            ) by {
                assert(self@.lowpass[c] as int == lp_chain(
                    v2.lowpass[c],
                    v2.scratch[c],
                    v2.gain,
                    damping@,
                    b as int,
                ));
                assert(v2.scratch[c] == v0.mixed_row(b as int, c));
            }
            assert forall|c: int| 0 <= c < v0.channels() implies #[trigger] self@.delays[c]
                == v0.delays[c].write_seq(
                wb_from(
                    v0.lowpass[c],
                    v0.mixed_row(b as int, c),
                    v0.gain,
                    input@[c]@,
                    damping@,
                    b as int,
                ),
            ) by {
                assert(self@.delays[c] == v2.delays[c].write_seq(
                    wb_from(
                        v2.lowpass[c],
                        v2.scratch[c],
                        v2.gain,
                        input@[c]@,
                        damping@,
                        b as int,
                    ),
                ));
                assert(v2.scratch[c] == v0.mixed_row(b as int, c));
            }
        }
    }
}

/// Law: in a single-channel tail with feedback gain strictly below one, a
/// pass-through damping coefficient and silent input, every sample written
/// back into the loop is strictly smaller in magnitude than the delayed
/// sample it replaces it with (or both are zero), so the loop's content
/// decays toward zero cycle by cycle.
pub proof fn lemma_tail_decay_step(t: TailView, b: int, f: int)
    requires
        t.wf(),
        t.channels() == 1,
        0 <= t.gain < UNIT,
        t.ready(b),
        0 <= f < b,
    ensures
        ({
            let zeros = Seq::new(b as nat, |i: int| 0i64);
            let pass = Seq::new(b as nat, |i: int| UNIT as i64);
            let wb = wb_from(t.lowpass[0], t.mixed_row(b, 0), t.gain, zeros, pass, b);
            let src = t.delays[0].read_seq(b)[f] as int;
            &&& (src == 0 ==> wb[f] == 0i64)
            &&& (src != 0 ==> (if wb[f] >= 0 {
                wb[f] as int
            } else {
                -(wb[f] as int)
            }) < (if src >= 0 {
                src
            } else {
                -src
            }))
        }),
{
    let zeros = Seq::new(b as nat, |i: int| 0i64);
    let pass = Seq::new(b as nat, |i: int| UNIT as i64);
    let xs = t.mixed_row(b, 0);
    let x = t.delays[0].read_seq(b)[f] as int;
    assert(-SAMPLE_LIMIT <= x <= SAMPLE_LIMIT) by {
        assert(t.delays[0].bounded(SAMPLE_LIMIT as int));
        assert(t.delays[0].read_seq(b)[f] == t.delays[0].data[crate::delay::wrap(
            t.delays[0].cap(),
            t.delays[0].read_index() + f,
        )]);
    }

    // The Householder reflection of a single-sample frame is its negation.
    let col = ints(frame_of(t.douts(b), 1, f));
    assert(t.douts(b)[0] == t.delays[0].read_seq(b));
    assert(frame_of(t.douts(b), 1, f)[0] == t.douts(b)[0][f]);
    assert(col[0] == x);
    assert(col.len() == 1);
    assert(col =~= seq![x]);
    assert(crate::mixer::sum_seq(col) == x) by {
        assert(col.drop_last() =~= Seq::<int>::empty());
        assert(crate::mixer::sum_seq(Seq::<int>::empty()) == 0);
        assert(col.last() == x);
    }
    assert(crate::mixer::hh_shift(col) == -2 * x) by {
        assert((2 * x) / 1int == 2 * x);
        assert((-(2 * x)) / 1int == -(2 * x));
    }
    assert(t.mixed_col(b, f)[0] == -x);
    assert(xs[f] == (-x) as i64);

    // A pass-through damping coefficient hands the gained sample straight on.
    let gained = qmul(-x, t.gain as int);
    crate::fixed::lemma_gain_bounded(-x, t.gain as int);
    let y_prev = lp_chain(t.lowpass[0], xs, t.gain, pass, f);
    assert(y_prev * (UNIT - UNIT) == 0) by (nonlinear_arith);
    assert(qmul(y_prev, 0) == 0);
    crate::mixer::lemma_tdiv_mul(gained, UNIT as int);
    assert(gained * (UNIT as int) == (UNIT as int) * gained) by (nonlinear_arith);
    assert(qmul(gained, UNIT as int) == gained);
    assert(lp_chain(t.lowpass[0], xs, t.gain, pass, f + 1) == clip_s(gained));
    assert(clip_s(gained) == gained);
    let wb = wb_from(t.lowpass[0], xs, t.gain, zeros, pass, b);
    assert(wb[f] == clip_s(gained + 0) as i64);

    // A gain below one strictly contracts, which is the decay itself.
    crate::fixed::lemma_gain_contracts(-x, t.gain as int);
}

/// A single-channel tail as a bare pair of delay line and low-pass state.
pub open spec fn tail1_view(d: DelayView, y: i64, gain: i64) -> TailView {
    TailView {
        gain,
        delays: seq![d],
        lowpass: seq![y],
        scratch: Seq::<Seq<i64>>::empty(),
        scratch1: Seq::<Seq<i64>>::empty(),
    }
}

/// One single-sample block of a one-channel tail with pass-through damping:
/// exactly the `mixed_row`/`wb_from`/`lp_chain` pieces of the block contract,
/// specialized to block length one.
pub open spec fn tail1_step(d: DelayView, y: i64, gain: i64, x: i64) -> (DelayView, i64) {
    let xs = tail1_view(d, y, gain).mixed_row(1, 0);
    let damping = seq![UNIT];
    (
        d.write_seq(wb_from(y, xs, gain, seq![x], damping, 1)),
        lp_chain(y, xs, gain, damping, 1) as i64,
    )
}

/// The tail after `t` such blocks of the input stream `ins`.
pub open spec fn tail1_at(d: DelayView, y: i64, gain: i64, ins: Seq<i64>, t: int) -> (
    DelayView,
    i64,
)
    decreases t,
{
    if t <= 0 {
        (d, y)
    } else {
        let prev = tail1_at(d, y, gain, ins, t - 1);
        tail1_step(prev.0, prev.1, gain, ins[t - 1])
    }
}

/// The mixed row of any one-channel tail view depends only on its delay
/// line, so the block contract and `tail1_step` speak of the same value.
pub proof fn lemma_tail1_view_mixed(t: TailView)
    requires
        t.channels() == 1,
        t.lowpass.len() == 1,
    ensures
        t.mixed_row(1, 0) == tail1_view(t.delays[0], t.lowpass[0], t.gain).mixed_row(1, 0),
{
    let u = tail1_view(t.delays[0], t.lowpass[0], t.gain);
    assert(t.douts(1) =~= u.douts(1));
    assert forall|f: int| 0 <= f < 1 implies t.mixed_col(1, f) == u.mixed_col(1, f) by {
        assert(frame_of(t.douts(1), 1, f) =~= frame_of(u.douts(1), 1, f));
    }
    assert(t.mixed_row(1, 0) =~= u.mixed_row(1, 0));
}

/// What one silent-state block does: a zero frame is emitted and the input
/// sample goes straight into the line, because the reflection of a zero
/// frame is zero and the pass-through damping hands the gained zero on.
proof fn lemma_tail1_quiet_step(d: DelayView, y: i64, gain: i64, x: i64)
    requires
        d.wf(),
        d.read_sample() == 0,
        0 <= gain <= GAIN_LIMIT,
        -SAMPLE_LIMIT <= x <= SAMPLE_LIMIT,
    ensures
        tail1_step(d, y, gain, x) == (d.write_one(x), 0i64),
{
    let xs = tail1_view(d, y, gain).mixed_row(1, 0);
    let col = ints(frame_of(tail1_view(d, y, gain).douts(1), 1, 0));
    assert(tail1_view(d, y, gain).douts(1)[0] == d.read_seq(1));
    assert(d.read_seq(1)[0] == d.data[crate::delay::wrap(d.cap(), d.read_index() + 0)]);
    assert(d.read_seq(1)[0] == d.read_sample());
    assert(col =~= seq![0int]);
    assert(crate::mixer::sum_seq(col) == 0) by {
        assert(col.drop_last() =~= Seq::<int>::empty());
        assert(crate::mixer::sum_seq(Seq::<int>::empty()) == 0);
    }
    assert(crate::mixer::hh_shift(col) == 0) by {
        assert(0int / 1int == 0);
    }
    assert(tail1_view(d, y, gain).mixed_col(1, 0)[0] == 0);
    assert(xs[0] == 0i64);

    let damping = seq![UNIT];
    assert(0int * gain == 0) by (nonlinear_arith);
    assert(qmul(0, gain as int) == 0);
    let y_prev = lp_chain(y, xs, gain, damping, 0);
    assert(y_prev * (UNIT - UNIT) == 0) by (nonlinear_arith);
    assert(qmul(y_prev, 0) == 0);
    assert(0int * (UNIT as int) == 0) by (nonlinear_arith);
    assert(qmul(0, UNIT as int) == 0);
    assert(lp_chain(y, xs, gain, damping, 1) == 0);
    let wb = wb_from(y, xs, gain, seq![x], damping, 1);
    assert(wb[0] == clip_s(0 + x) as i64);
    assert(wb[0] == x);
    assert(wb =~= seq![x]);
    assert(d.write_seq(seq![x]) == d.write_one(x).write_seq(seq![x].drop_first()));
    assert(seq![x].drop_first() =~= Seq::<i64>::empty());
    assert(d.write_one(x).write_seq(Seq::<i64>::empty()) == d.write_one(x));
}

/// The state after an impulse followed by silence: the impulse sits where
/// it was written, zeros follow it, and the low-pass state stays zero.
proof fn lemma_tail1_impulse_state(d: DelayView, amp: i64, ins: Seq<i64>, gain: i64, t: int)
    requires
        d.wf(),
        forall|i: int| 0 <= i < d.data.len() ==> #[trigger] d.data[i] == 0i64,
        -SAMPLE_LIMIT <= amp <= SAMPLE_LIMIT,
        0 <= gain <= GAIN_LIMIT,
        ins.len() >= t,
        ins.len() >= 1,
        ins[0] == amp,
        forall|j: int| 1 <= j < t ==> #[trigger] ins[j] == 0i64,
        1 <= t <= d.len,
    ensures
        tail1_at(d, 0, gain, ins, t).0 == d.write_one(amp).write_seq(
            Seq::new((t - 1) as nat, |i: int| 0i64),
        ),
        tail1_at(d, 0, gain, ins, t).1 == 0i64,
    decreases t,
{
    let d1 = d.write_one(amp);
    crate::delay::lemma_write_one_wf(d, amp);
    if t == 1 {
        assert(d.read_sample() == 0);
        lemma_tail1_quiet_step(d, 0, gain, amp);
        assert(tail1_at(d, 0, gain, ins, 1).0 == d.write_one(amp));
        assert(d.write_one(amp).write_seq(Seq::new(0nat, |i: int| 0i64)) == d.write_one(amp))
            by {
            assert(Seq::new(0nat, |i: int| 0i64) =~= Seq::<i64>::empty());
        }
    } else {
        lemma_tail1_impulse_state(d, amp, ins, gain, t - 1);
        let zeros_prev = Seq::new((t - 2) as nat, |i: int| 0i64);
        let st = d1.write_seq(zeros_prev);
        crate::delay::lemma_write_seq_effect(d1, zeros_prev);
        // The read cursor of the intermediate state has not yet come back
        // around to the impulse, nor into the zeros written after it.
        let cap = d.cap();
        assert(st.pos == crate::delay::wrap(cap, d1.pos + (t - 2)));
        let target = st.read_index();
        assert(crate::delay::dist(cap, d1.pos, target) >= t - 2);
        assert(st.data[target] == (if crate::delay::dist(cap, d1.pos, target) < t - 2 {
            zeros_prev[crate::delay::dist(cap, d1.pos, target)]
        } else {
            d1.data[target]
        }));
        assert(target != d.pos);
        assert(st.read_sample() == 0);
        lemma_tail1_quiet_step(st, 0, gain, ins[t - 1]);
        assert(tail1_at(d, 0, gain, ins, t).0 == st.write_one(ins[t - 1]));
        crate::delay::lemma_write_seq_snoc(d1, zeros_prev, ins[t - 1]);
        assert(zeros_prev.push(ins[t - 1]) =~= Seq::new((t - 1) as nat, |i: int| 0i64));
    }
}

/// Law (impulse response): a one-channel tail with zeroed state, fed a unit
/// impulse and then silence with pass-through damping, emits exactly zero at
/// every block strictly between zero and its delay length, and the impulse
/// amplitude itself, exactly, at the block equal to its delay length —
/// whatever the feedback gain, gain one included.
pub proof fn lemma_tail_impulse_response(d: DelayView, amp: i64, ins: Seq<i64>, gain: i64, t: int)
    requires
        d.wf(),
        forall|i: int| 0 <= i < d.data.len() ==> #[trigger] d.data[i] == 0i64,
        -SAMPLE_LIMIT <= amp <= SAMPLE_LIMIT,
        0 <= gain <= GAIN_LIMIT,
        ins.len() >= t,
        ins.len() >= 1,
        ins[0] == amp,
        forall|j: int| 1 <= j < t ==> #[trigger] ins[j] == 0i64,
        1 <= t <= d.len,
    ensures
        t < d.len ==> tail1_at(d, 0, gain, ins, t).0.read_sample() == 0i64,
        t == d.len ==> tail1_at(d, 0, gain, ins, t).0.read_sample() == amp,
{
    lemma_tail1_impulse_state(d, amp, ins, gain, t);
    let d1 = d.write_one(amp);
    crate::delay::lemma_write_one_wf(d, amp);
    let zeros = Seq::new((t - 1) as nat, |i: int| 0i64);
    if t == d.len {
        crate::delay::lemma_round_trip(d, amp, zeros);
    } else {
        let st = d1.write_seq(zeros);
        crate::delay::lemma_write_seq_effect(d1, zeros);
        let cap = d.cap();
        let target = st.read_index();
        assert(crate::delay::dist(cap, d1.pos, target) >= t - 1);
        assert(st.data[target] == (if crate::delay::dist(cap, d1.pos, target) < t - 1 {
            zeros[crate::delay::dist(cap, d1.pos, target)]
        } else {
            d1.data[target]
        }));
        assert(target != d.pos);
        assert(st.read_sample() == 0);
    }
}

/// Law (decay envelope): during silence, with pass-through damping and a
/// feedback gain of at most one, any bound on a one-channel loop's content
/// and filter state keeps holding block after block — so the tail's output
/// magnitude never grows once the input stops. With a gain strictly below
/// one, `lemma_tail_decay_step` sharpens this: every written sample strictly
/// shrinks.
pub proof fn lemma_tail1_silent_bound(d: DelayView, y: i64, gain: i64, b: int)
    requires
        d.wf(),
        d.bounded(b),
        0 <= b <= SAMPLE_LIMIT,
        -b <= y <= b,
        0 <= gain <= UNIT,
    ensures
        tail1_step(d, y, gain, 0).0.bounded(b),
        tail1_step(d, y, gain, 0).0.wf(),
        -b <= tail1_step(d, y, gain, 0).1 <= b,
        -b <= tail1_step(d, y, gain, 0).0.read_sample() <= b,
{
    let xs = tail1_view(d, y, gain).mixed_row(1, 0);
    let col = ints(frame_of(tail1_view(d, y, gain).douts(1), 1, 0));
    let x = d.read_sample() as int;
    assert(tail1_view(d, y, gain).douts(1)[0] == d.read_seq(1));
    assert(d.read_seq(1)[0] == d.data[crate::delay::wrap(d.cap(), d.read_index() + 0)]);
    assert(d.read_seq(1)[0] == d.read_sample());
    assert(-b <= x <= b);
    assert(col =~= seq![x]);
    assert(crate::mixer::sum_seq(col) == x) by {
        assert(col.drop_last() =~= Seq::<int>::empty());
        assert(crate::mixer::sum_seq(Seq::<int>::empty()) == 0);
        assert(col.last() == x);
    }
    assert(crate::mixer::hh_shift(col) == -2 * x) by {
        assert((2 * x) / 1int == 2 * x);
        assert((-(2 * x)) / 1int == -(2 * x));
    }
    assert(tail1_view(d, y, gain).mixed_col(1, 0)[0] == -x);
    assert(xs[0] == (-x) as i64);

    let damping = seq![UNIT];
    let gained = qmul(-x, gain as int);
    crate::fixed::lemma_gain_bounded(-x, gain as int);
    assert(-b <= gained <= b);
    let y_prev = lp_chain(y, xs, gain, damping, 0);
    assert(y_prev * (UNIT - UNIT) == 0) by (nonlinear_arith);
    assert(qmul(y_prev, 0) == 0);
    crate::mixer::lemma_tdiv_mul(gained, UNIT as int);
    assert(gained * (UNIT as int) == (UNIT as int) * gained) by (nonlinear_arith);
    assert(qmul(gained, UNIT as int) == gained);
    assert(lp_chain(y, xs, gain, damping, 1) == clip_s(gained));
    assert(clip_s(gained) == gained);
    let wb = wb_from(y, xs, gain, seq![0i64], damping, 1);
    assert(wb[0] == clip_s(gained + 0) as i64);
    assert(-b <= wb[0] <= b);
    assert(wb =~= seq![wb[0]]);
    let d2 = tail1_step(d, y, gain, 0).0;
    assert(d2 == d.write_one(wb[0]).write_seq(seq![wb[0]].drop_first()));
    assert(seq![wb[0]].drop_first() =~= Seq::<i64>::empty());
    assert(d2 == d.write_one(wb[0]));
    crate::delay::lemma_write_one_wf(d, wb[0]);
    assert(d2.bounded(b));
    assert(d2.read_sample() == d2.data[d2.read_index()]);
}

} // verus!
