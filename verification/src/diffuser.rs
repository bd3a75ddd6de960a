//! The diffusion stage: a bank of delay lines of stratified random lengths,
//! sign-flipped per channel and mixed through the Hadamard transform.
//!
//! Each channel's delay length is drawn once, at construction, from its own
//! stratum of the configured range, so no two channels resonate together;
//! half the channels are sign-flipped, in a random order.

use vstd::prelude::*;

verus! {

use crate::delay::DelayLine;
use crate::delay::DelayView;
use crate::fixed::FRAME_LIMIT;
use crate::fixed::SAMPLE_LIMIT;
use crate::fixed::clip;
use crate::fixed::clip_s;
use crate::mixer::ints;
use crate::mixer::is_pow2;
use crate::mixer::hadamard_recursive;
use crate::mixer::whad;
use crate::rng::gen_range_usize;
use crate::rng::shuffle_signs;

broadcast use vstd::multiset::group_multiset_axioms, vstd::multiset::group_multiset_properties;

/// The channel views of a bank of rows.
pub open spec fn rows(m: Seq<Vec<i64>>) -> Seq<Seq<i64>> {
    Seq::new(m.len(), |c: int| m[c]@)
}

/// The multichannel frame at index `f` of a block, one sample per channel.
pub open spec fn frame_of(inp: Seq<Seq<i64>>, n: int, f: int) -> Seq<i64> {
    Seq::new(n as nat, |c: int| inp[c][f])
}

/// Mathematical state of a diffuser: one delay line and one polarity per
/// channel.
pub struct DiffuserView {
    pub delays: Seq<DelayView>,
    pub polarity: Seq<i64>,
}

impl DiffuserView {
    pub open spec fn channels(self) -> int {
        self.delays.len() as int
    }

    pub open spec fn wf(self) -> bool {
        &&& self.polarity.len() == self.delays.len()
        &&& is_pow2(self.channels())
        &&& self.channels() <= 64
        &&& forall|c: int|
            0 <= c < self.channels() ==> (#[trigger] self.delays[c]).wf() && self.delays[c].bounded(
                SAMPLE_LIMIT as int,
            )
        &&& forall|c: int|
            0 <= c < self.channels() ==> #[trigger] self.polarity[c] == 1 || self.polarity[c]
                == -1
    }

    /// The pre-mix frame: each channel's delayed sample, sign flipped.
    pub open spec fn premix(self) -> Seq<int> {
        Seq::new(self.delays.len(), |c: int| self.polarity[c] * self.delays[c].read_sample())
    }

    /// The frame a single step emits: the Hadamard mix of the pre-mix frame,
    /// saturated channel by channel.
    pub open spec fn step_out(self) -> Seq<int> {
        Seq::new(self.delays.len(), |c: int| clip_s(whad(self.premix())[c]))
    }

    /// State after one input frame is stored, one sample per channel.
    pub open spec fn after_frame(self, frame: Seq<i64>) -> DiffuserView {
        DiffuserView {
            delays: Seq::new(self.delays.len(), |c: int| self.delays[c].write_one(frame[c])),
            polarity: self.polarity,
        }
    }

    /// State after the first `f` frames of a block have been stored.
    pub open spec fn state_at(self, inp: Seq<Seq<i64>>, f: int) -> DiffuserView
        decreases f,
    {
        if f <= 0 {
            self
        } else {
            self.state_at(inp, f - 1).after_frame(frame_of(inp, self.channels(), f - 1))
        }
    }

    /// The frame emitted at block index `f`: the mix read just before the
    /// `f`-th input frame is stored.
    pub open spec fn block_out(self, inp: Seq<Seq<i64>>, f: int) -> Seq<int> {
        self.state_at(inp, f).step_out()
    }
}

/// Storing one bounded frame keeps a diffuser well formed; channel count and
/// polarity do not move.
pub proof fn lemma_after_frame_wf(d: DiffuserView, frame: Seq<i64>)
    requires
        d.wf(),
        frame.len() == d.channels(),
        forall|c: int|
            0 <= c < frame.len() ==> -SAMPLE_LIMIT <= #[trigger] frame[c] <= SAMPLE_LIMIT,
    ensures
        d.after_frame(frame).wf(),
        d.after_frame(frame).channels() == d.channels(),
        d.after_frame(frame).polarity == d.polarity,
{
    let d2 = d.after_frame(frame);
    assert forall|c: int| 0 <= c < d2.channels() implies (#[trigger] d2.delays[c]).wf()
        && d2.delays[c].bounded(SAMPLE_LIMIT as int) by {
        crate::delay::lemma_write_one_wf(d.delays[c], frame[c]);
        assert(d.delays[c].write_one(frame[c]).bounded(SAMPLE_LIMIT as int));
    }
}

/// Storing a bounded block keeps a diffuser well formed.
pub proof fn lemma_state_at_wf(d: DiffuserView, inp: Seq<Seq<i64>>, b: int, f: int)
    requires
        d.wf(),
        inp.len() == d.channels(),
        forall|c: int| 0 <= c < inp.len() ==> (#[trigger] inp[c]).len() == b,
        forall|c: int, k: int|
            0 <= c < inp.len() && 0 <= k < b ==> -SAMPLE_LIMIT <= #[trigger] inp[c][k]
                <= SAMPLE_LIMIT,
        0 <= f <= b,
    ensures
        d.state_at(inp, f).wf(),
        d.state_at(inp, f).channels() == d.channels(),
        d.state_at(inp, f).polarity == d.polarity,
    decreases f,
{
    if f > 0 {
        lemma_state_at_wf(d, inp, b, f - 1);
        let prev = d.state_at(inp, f - 1);
        let frame = frame_of(inp, d.channels(), f - 1);
        assert forall|c: int| 0 <= c < frame.len() implies -SAMPLE_LIMIT <= #[trigger] frame[c]
            <= SAMPLE_LIMIT by {
            assert(inp[c][f - 1] == frame[c]);
        }
        lemma_after_frame_wf(prev, frame);
    }
}

/// A bank of sign-flipped delay lines mixed by the Hadamard transform.
pub struct Diffuser {
    delays: Vec<DelayLine>,
    flip_polarity: Vec<i64>,
    frame_scratch: Vec<i64>,
}

impl View for Diffuser {
    type V = DiffuserView;

    closed spec fn view(&self) -> DiffuserView {
        DiffuserView {
            delays: Seq::new(self.delays@.len(), |c: int| self.delays@[c]@),
            polarity: self.flip_polarity@,
        }
    }
}

impl Diffuser {
    /// The per-frame working buffer is sized to the channel count, so
    /// processing a block never allocates.
    pub closed spec fn scratch_ok(&self) -> bool {
        self.frame_scratch@.len() == self.delays@.len()
    }

    /// A diffuser of `channels` lines whose lengths are drawn from disjoint
    /// strata of `[1, max_delay_length_in_samples]`, with half the channels
    /// sign-flipped in a random order.
    pub fn new(channels: usize, max_delay_length_in_samples: usize) -> (r: Diffuser)
        requires
            is_pow2(channels as int),
            channels <= 64,
            2 * channels <= max_delay_length_in_samples,
            max_delay_length_in_samples <= crate::delay::MAX_CAPACITY,
        ensures
            r@.wf(),
            r@.channels() == channels,
            ({
                let stride = max_delay_length_in_samples as int / channels as int;
                forall|c: int|
                    0 <= c < channels ==> stride * c + 1 <= (#[trigger] r@.delays[c]).len
                        < stride * (c + 1)
            }),
            r@.polarity.to_multiset().count(-1i64) == channels as int / 2,
            r@.polarity.to_multiset().count(1i64) == channels as int - channels as int / 2,
            r.scratch_ok(),
    {
        let stride = max_delay_length_in_samples / channels;
        proof {
            assert(stride >= 2) by (nonlinear_arith)
                requires
                    stride == max_delay_length_in_samples as int / channels as int,
                    max_delay_length_in_samples >= 2 * channels,
                    channels >= 1,
            ;
            assert(stride * channels <= max_delay_length_in_samples) by (nonlinear_arith)
                requires
                    stride == max_delay_length_in_samples as int / channels as int,
                    channels >= 1,
            ;
        }
        let mut delays: Vec<DelayLine> = Vec::new();
        let mut c: usize = 0;
        while c < channels
            invariant
                c <= channels,
                channels >= 1,
                stride >= 2,
                stride * channels <= max_delay_length_in_samples,
                max_delay_length_in_samples <= crate::delay::MAX_CAPACITY,
                delays@.len() == c,
                forall|k: int|
                    0 <= k < c ==> stride * k + 1 <= (#[trigger] delays@[k]@).len < stride * (k
                        + 1),
                forall|k: int|
                    0 <= k < c ==> (#[trigger] delays@[k]@).wf() && delays@[k]@.bounded(
                        SAMPLE_LIMIT as int,
                    ),
            decreases channels - c,
        {
            proof {
                assert(stride * c + 1 < stride * (c + 1)) by (nonlinear_arith)
                    requires
                        stride >= 2,
                        c >= 0,
                ;
                assert(stride * (c + 1) <= stride * channels) by (nonlinear_arith)
                    requires
                        stride >= 0,
                        c + 1 <= channels,
                ;
                assert(stride * c >= 0) by (nonlinear_arith)
                    requires
                        stride >= 0,
                        c >= 0,
                ;
            }
            let lo = stride * c + 1;
            let hi = stride * (c + 1);
            let time = gen_range_usize(lo, hi);
            delays.push(DelayLine::new(time));
            c += 1;
        }
        let half = channels / 2;
        let mut flip_polarity: Vec<i64> = Vec::new();
        proof {
            flip_polarity@.to_multiset_ensures();
            assert(!flip_polarity@.contains(1i64));
            assert(!flip_polarity@.contains(-1i64));
        }
        let mut i: usize = 0;
        while i < channels
            invariant
                i <= channels,
                half == channels as int / 2,
                flip_polarity@.len() == i,
                forall|k: int|
                    0 <= k < i ==> #[trigger] flip_polarity@[k] == 1 || flip_polarity@[k] == -1,
                flip_polarity@.to_multiset().count(-1i64) == (if i <= half {
                    i as int
                } else {
                    half as int
                }),
                flip_polarity@.to_multiset().count(1i64) == (if i <= half {
                    0int
                } else {
                    i as int - half
                }),
            decreases channels - i,
        {
            let v: i64 = if i < half {
                -1
            } else {
                1
            };
            proof {
                flip_polarity@.to_multiset_ensures();
                assert(flip_polarity@.push(v).to_multiset() =~= flip_polarity@.to_multiset().insert(
                    v,
                ));
            }
            flip_polarity.push(v);
            i += 1;
        }
        let ghost before = flip_polarity@;
        shuffle_signs(&mut flip_polarity);
        proof {
            assert forall|k: int| 0 <= k < flip_polarity@.len() implies #[trigger] flip_polarity@[k]
                == 1 || flip_polarity@[k] == -1 by {
            if flip_polarity@[k] != 1 && flip_polarity@[k] != -1 {
                    flip_polarity@.to_multiset_ensures();
                    before.to_multiset_ensures();
                    assert(flip_polarity@.contains(flip_polarity@[k]));
                    assert(before.to_multiset().count(flip_polarity@[k]) > 0);
                    assert(before.contains(flip_polarity@[k]));
                }
            }
        }
        let mut frame_scratch: Vec<i64> = Vec::new();
        let mut i: usize = 0;
        while i < channels
            invariant
                i <= channels,
                frame_scratch@.len() == i,
            decreases channels - i,
        {
            frame_scratch.push(0);
            i += 1;
        }
        Diffuser { delays, flip_polarity, frame_scratch }
    }

    /// Nothing to set up per block: the bank is sized at construction.
    pub fn init(&mut self, block_size: usize)
        ensures
            final(self)@ == old(self)@,
            final(self).scratch_ok() == old(self).scratch_ok(),
    {
        let _ = block_size;
    }

    /// The number of channels.
    pub fn channels(&self) -> (r: usize)
        ensures
            r == self@.channels(),
    {
        self.delays.len()
    }

    /// Diffuse one block: per frame, read every channel's delayed sample with
    /// its sign flip, store the incoming frame, and emit the Hadamard mix of
    /// what was read, saturated per channel.
    #[verifier::loop_isolation(false)]
    pub fn process_block(&mut self, input: &Vec<Vec<i64>>, output: &mut Vec<Vec<i64>>)
        requires
            old(self)@.wf(),
            old(self).scratch_ok(),
            input@.len() == old(self)@.channels(),
            old(output)@.len() == old(self)@.channels(),
            input@.len() >= 1,
            forall|c: int|
                0 <= c < input@.len() ==> (#[trigger] input@[c])@.len() == input@[0]@.len(),
            forall|c: int|
                0 <= c < old(output)@.len() ==> (#[trigger] old(output)@[c])@.len()
                    == input@[0]@.len(),
            forall|c: int, k: int|
                0 <= c < input@.len() && 0 <= k < input@[c]@.len() ==> -SAMPLE_LIMIT
                    <= #[trigger] input@[c]@[k] <= SAMPLE_LIMIT,
        ensures
            final(self)@ == old(self)@.state_at(rows(input@), input@[0]@.len() as int),
            final(self)@.wf(),
            final(self).scratch_ok(),
            final(output)@.len() == old(output)@.len(),
            forall|c: int|
                0 <= c < final(output)@.len() ==> (#[trigger] final(output)@[c])@.len()
                    == input@[0]@.len(),
            forall|c: int, f: int|
                0 <= c < final(output)@.len() && 0 <= f < input@[0]@.len()
                    ==> #[trigger] final(output)@[c]@[f] == old(self)@.block_out(
                    rows(input@),
                    f,
                )[c],
    {
        let channels = self.delays.len();
        let block_size = input[0].len();
        let ghost inp = rows(input@);
        proof {
            assert forall|c: int, k: int|
                0 <= c < inp.len() && 0 <= k < block_size implies -SAMPLE_LIMIT
                <= #[trigger] inp[c][k] <= SAMPLE_LIMIT by {
                assert(inp[c][k] == input@[c]@[k]);
            }
        }
        let mut f: usize = 0;
        while f < block_size
            invariant
                f <= block_size,
                self.frame_scratch@.len() == channels,
                self.delays@.len() == channels,
                self@ == old(self)@.state_at(inp, f as int),
                self@.wf(),
                output@.len() == channels,
                forall|c: int|
                    0 <= c < channels ==> (#[trigger] output@[c])@.len() == block_size,
                forall|c: int, k: int|
                    0 <= c < channels && 0 <= k < f ==> #[trigger] output@[c]@[k] == old(
                        self,
                    )@.block_out(inp, k)[c],
            decreases block_size - f,
        {
            proof {
                lemma_state_at_wf(old(self)@, inp, block_size as int, f as int);
            }
            let ghost pre = self@;
            let mut c: usize = 0;
            while c < channels
                invariant
                    c <= channels,
                    self.frame_scratch@.len() == channels,
                    self@.polarity == pre.polarity,
                    self@.delays.len() == channels,
                    pre.wf(),
                    pre == old(self)@.state_at(inp, f as int),
                    f < block_size,
                    forall|k: int|
                        0 <= k < c ==> #[trigger] self@.delays[k] == pre.delays[k].write_one(
                            input@[k]@[f as int],
                        ),
                    forall|k: int|
                        c <= k < channels ==> #[trigger] self@.delays[k] == pre.delays[k],
                    forall|k: int|
                        0 <= k < c ==> #[trigger] self.frame_scratch@[k] == pre.premix()[k],
                decreases channels - c,
            {
                let line = &self.delays[c];
                proof {
                    assert(self@.delays[c as int] == pre.delays[c as int]);
                    assert(line@ == pre.delays[c as int]);
                }
                let r = line.read();
                proof {
                    assert(-SAMPLE_LIMIT <= r <= SAMPLE_LIMIT);
                }
                let v: i64 = if self.flip_polarity[c] == 1 {
                    r
                } else {
                    -r
                };
                proof {
                    let p = pre.polarity[c as int];
                    assert(p == self@.polarity[c as int]);
                    assert(pre.premix()[c as int] == p * pre.delays[c as int].read_sample());
                    let rs = pre.delays[c as int].read_sample();
                    assert(r == rs);
                    if p == 1 {
                        assert(p * rs == rs) by (nonlinear_arith)
                            requires
                                p == 1,
                        ;
                    } else {
                        assert(p == -1);
                        assert(p * rs == -rs) by (nonlinear_arith)
                            requires
                                p == -1,
                        ;
                    }
                    assert(v == pre.premix()[c as int]);
                }
                self.frame_scratch[c] = v;
                let sample = input[c][f];
                let ghost before_write = self@;
                let line_mut = &mut self.delays[c];
                line_mut.write_and_advance(sample);
                proof {
                    assert forall|k: int|
                        0 <= k < channels && k != c implies #[trigger] self@.delays[k]
                        == before_write.delays[k] by {}
                    assert(self@.delays[c as int] == before_write.delays[c as int].write_one(
                        sample,
                    ));
                    assert(self@.delays[c as int] == pre.delays[c as int].write_one(
                        input@[c as int]@[f as int],
                    ));
                }
                c += 1;
            }
            proof {
                let frame = frame_of(inp, channels as int, f as int);
                assert forall|k: int| 0 <= k < channels implies #[trigger] self@.delays[k]
                    == pre.delays[k].write_one(frame[k]) by {
                    assert(frame[k] == input@[k]@[f as int]);
                }
                assert(self@.delays =~= pre.after_frame(frame).delays);
                assert(self@ == pre.after_frame(frame));
                assert(ints(self.frame_scratch@) =~= pre.premix());
                assert forall|k: int|
                    0 <= k < channels implies -FRAME_LIMIT <= #[trigger] self.frame_scratch@[k]
                    <= FRAME_LIMIT by {
                    let p = pre.polarity[k];
                    let rs = pre.delays[k].read_sample();
                    assert(self.frame_scratch@[k] == pre.premix()[k]);
                    assert(pre.premix()[k] == p * rs);
                    assert(pre.delays[k].bounded(SAMPLE_LIMIT as int));
                    assert(-SAMPLE_LIMIT <= rs <= SAMPLE_LIMIT);
                    if p == 1 {
                        assert(p * rs == rs) by (nonlinear_arith)
                            requires
                                p == 1,
                        ;
                    } else {
                        assert(p == -1);
                        assert(p * rs == -rs) by (nonlinear_arith)
                            requires
                                p == -1,
                        ;
                    }
                }
            }
            hadamard_recursive(&mut self.frame_scratch);
            let ghost mixed = whad(pre.premix());
            proof {
                assert(ints(self.frame_scratch@) == mixed);
            }
            let mut c: usize = 0;
            while c < channels
                invariant
                    c <= channels,
                    self.frame_scratch@.len() == channels,
                    ints(self.frame_scratch@) == mixed,
                    mixed == whad(pre.premix()),
                    pre == old(self)@.state_at(inp, f as int),
                    f < block_size,
                    self@ == pre.after_frame(frame_of(inp, channels as int, f as int)),
                    output@.len() == channels,
                    forall|k: int|
                        0 <= k < channels ==> (#[trigger] output@[k])@.len() == block_size,
                    forall|k: int, j: int|
                        0 <= k < channels && 0 <= j < f ==> #[trigger] output@[k]@[j] == old(
                            self,
                        )@.block_out(inp, j)[k],
                    forall|k: int|
                        0 <= k < c ==> #[trigger] output@[k]@[f as int] == pre.step_out()[k],
                decreases channels - c,
            {
                let v = clip(self.frame_scratch[c]);
                proof {
                    assert(self.frame_scratch@[c as int] == mixed[c as int]);
                }
                let row = &mut output[c];
                row[f] = v;
                c += 1;
            }
            proof {
                assert(self@ == old(self)@.state_at(inp, f as int + 1));
            }
            f += 1;
        }
        proof {
            assert forall|c: int, k: int|
                0 <= c < channels && 0 <= k < block_size implies #[trigger] output@[c]@[k] == old(
                self,
            )@.block_out(inp, k)[c] by {}
            assert(self.frame_scratch@.len() == self.delays@.len());
            assert(self.scratch_ok());
        }
    }
}

} // verus!
