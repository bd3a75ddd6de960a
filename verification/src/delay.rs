//! A single-channel circular delay line.
//!
//! The buffer's capacity is fixed at construction; the active delay length may
//! be rescaled at any time without reallocation. The read cursor is always the
//! write cursor minus the active length, wrapped into the buffer.

use vstd::prelude::*;

verus! {

use crate::fixed::SAMPLE_LIMIT;
use crate::fixed::UNIT;
use crate::fixed::mul_gain;
use crate::fixed::qmul;

/// Largest buffer capacity a delay line may be built with.
pub const MAX_CAPACITY: usize = 0x1000000;

/// Reduce an index in `[0, 2*cap)` into `[0, cap)`.
pub open spec fn wrap(cap: int, i: int) -> int {
    if i >= cap {
        i - cap
    } else {
        i
    }
}

/// How many forward steps the write cursor takes from `from` to reach `to`.
pub open spec fn dist(cap: int, from: int, to: int) -> int {
    if to >= from {
        to - from
    } else {
        to + cap - from
    }
}

/// Mathematical state of a delay line: backing buffer, write cursor, active
/// delay length.
pub struct DelayView {
    pub data: Seq<i64>,
    pub pos: int,
    pub len: int,
}

impl DelayView {
    pub open spec fn cap(self) -> int {
        self.data.len() as int
    }

    pub open spec fn wf(self) -> bool {
        &&& 1 <= self.len <= self.cap()
        &&& 0 <= self.pos < self.cap()
        &&& self.cap() <= MAX_CAPACITY
    }

    /// All stored samples lie within `[-b, b]`.
    pub open spec fn bounded(self, b: int) -> bool {
        forall|i: int| 0 <= i < self.data.len() ==> -b <= #[trigger] self.data[i] <= b
    }

    /// The read cursor: `len` steps behind the write cursor.
    pub open spec fn read_index(self) -> int {
        wrap(self.cap(), self.pos + self.cap() - self.len)
    }

    /// The sample written `len` advances ago.
    pub open spec fn read_sample(self) -> i64 {
        self.data[self.read_index()]
    }

    /// State after one sample is stored at the write cursor, which advances.
    pub open spec fn write_one(self, v: i64) -> DelayView {
        DelayView {
            data: self.data.update(self.pos, v),
            pos: wrap(self.cap(), self.pos + 1),
            len: self.len,
        }
    }

    /// State after a whole block is stored, first sample first.
    pub open spec fn write_seq(self, vs: Seq<i64>) -> DelayView
        decreases vs.len(),
    {
        if vs.len() == 0 {
            self
        } else {
            self.write_one(vs[0]).write_seq(vs.drop_first())
        }
    }

    /// The `n` oldest samples of the active delay span, oldest first.
    pub open spec fn read_seq(self, n: int) -> Seq<i64> {
        Seq::new(n as nat, |i: int| self.data[wrap(self.cap(), self.read_index() + i)])
    }

    /// The active length after rescaling the capacity by the Q16 fraction `f`.
    pub open spec fn scaled_len(self, f: int) -> int {
        let l = (self.cap() * f) / (UNIT as int);
        if l == 0 {
            1
        } else {
            l
        }
    }
}

/// Writing one sample keeps the state well formed.
pub proof fn lemma_write_one_wf(d: DelayView, v: i64)
    requires
        d.wf(),
    ensures
        d.write_one(v).wf(),
        d.write_one(v).len == d.len,
        d.write_one(v).cap() == d.cap(),
{
}

/// Writing a block keeps the state well formed, the length and the capacity.
pub proof fn lemma_write_seq_wf(d: DelayView, vs: Seq<i64>)
    requires
        d.wf(),
    ensures
        d.write_seq(vs).wf(),
        d.write_seq(vs).len == d.len,
        d.write_seq(vs).cap() == d.cap(),
    decreases vs.len(),
{
    if vs.len() > 0 {
        lemma_write_one_wf(d, vs[0]);
        lemma_write_seq_wf(d.write_one(vs[0]), vs.drop_first());
    }
}

/// Writing a block of bounded samples into a bounded line keeps it bounded.
pub proof fn lemma_write_seq_bounded(d: DelayView, vs: Seq<i64>, b: int)
    requires
        d.wf(),
        d.bounded(b),
        forall|i: int| 0 <= i < vs.len() ==> -b <= #[trigger] vs[i] <= b,
    ensures
        d.write_seq(vs).bounded(b),
    decreases vs.len(),
{
    if vs.len() > 0 {
        lemma_write_one_wf(d, vs[0]);
        assert(d.write_one(vs[0]).bounded(b));
        lemma_write_seq_bounded(d.write_one(vs[0]), vs.drop_first(), b);
    }
}

/// Appending one sample to a block of writes equals writing it afterwards.
pub proof fn lemma_write_seq_snoc(d: DelayView, vs: Seq<i64>, v: i64)
    ensures
        d.write_seq(vs.push(v)) == d.write_seq(vs).write_one(v),
    decreases vs.len(),
{
    if vs.len() == 0 {
        assert(vs.push(v)[0] == v);
        assert(vs.push(v).drop_first() =~= Seq::<i64>::empty());
        assert(d.write_one(v).write_seq(Seq::<i64>::empty()) == d.write_one(v));
        assert(d.write_seq(vs) == d);
    } else {
        assert(vs.push(v)[0] == vs[0]);
        assert(vs.push(v).drop_first() =~= vs.drop_first().push(v));
        lemma_write_seq_snoc(d.write_one(vs[0]), vs.drop_first(), v);
    }
}

/// What a block write does, cell by cell: the cursor advances by the block
/// length, the cells it passed hold the block, every other cell is untouched.
pub proof fn lemma_write_seq_effect(d: DelayView, vs: Seq<i64>)
    requires
        d.wf(),
        vs.len() <= d.cap(),
    ensures
        ({
            let d2 = d.write_seq(vs);
            &&& d2.len == d.len
            &&& d2.cap() == d.cap()
            &&& d2.pos == wrap(d.cap(), d.pos + vs.len())
            &&& forall|t: int|
                0 <= t < d.cap() ==> d2.data[t] == (if dist(d.cap(), d.pos, t) < vs.len() {
                    vs[dist(d.cap(), d.pos, t)]
                } else {
                    d.data[t]
                })
        }),
    decreases vs.len(),
{
    if vs.len() > 0 {
        let d1 = d.write_one(vs[0]);
        lemma_write_one_wf(d, vs[0]);
        lemma_write_seq_effect(d1, vs.drop_first());
        let d2 = d.write_seq(vs);
        assert forall|t: int| 0 <= t < d.cap() implies d2.data[t] == (if dist(
            d.cap(),
            d.pos,
            t,
        ) < vs.len() {
            vs[dist(d.cap(), d.pos, t)]
        } else {
            d.data[t]
        }) by {
            if t == d.pos {
                assert(dist(d.cap(), d.pos, t) == 0);
                assert(dist(d.cap(), d1.pos, t) == d.cap() - 1);
                assert(d2.data[t] == d1.data[t]);
            } else {
                assert(dist(d.cap(), d1.pos, t) == dist(d.cap(), d.pos, t) - 1);
            }
        }
    }
}

/// Law: a sample written into the line comes back unchanged after exactly
/// `len` advances: the write itself followed by `len - 1` writes of any
/// values.
pub proof fn lemma_round_trip(d: DelayView, v: i64, later: Seq<i64>)
    requires
        d.wf(),
        later.len() == d.len - 1,
    ensures
        d.write_one(v).write_seq(later).read_sample() == v,
{
    let d1 = d.write_one(v);
    lemma_write_one_wf(d, v);
    lemma_write_seq_effect(d1, later);
    let d2 = d1.write_seq(later);
    assert(d2.pos == wrap(d.cap(), d1.pos + d.len - 1));
    assert(d2.read_index() == d.pos);
    assert(dist(d.cap(), d1.pos, d.pos) == d.cap() - 1);
    assert(d2.data[d.pos] == d1.data[d.pos]);
}

/// A single-channel circular sample buffer.
pub struct DelayLine {
    data: Vec<i64>,
    pos: usize,
    len: usize,
}

impl View for DelayLine {
    type V = DelayView;

    closed spec fn view(&self) -> DelayView {
        DelayView { data: self.data@, pos: self.pos as int, len: self.len as int }
    }
}

/// Reduce an index in `[0, 2*cap)` into `[0, cap)`.
fn wrap_index(cap: usize, i: usize) -> (r: usize)
    requires
        1 <= cap,
        i < 2 * cap,
    ensures
        r == wrap(cap as int, i as int),
{
    if i >= cap {
        i - cap
    } else {
        i
    }
}

impl DelayLine {
    /// A zeroed line whose capacity and active length are both `length`.
    pub fn new(length: usize) -> (r: DelayLine)
        requires
            1 <= length <= MAX_CAPACITY,
        ensures
            r@.wf(),
            r@.cap() == length,
            r@.len == length,
            r@.pos == 0,
            forall|i: int| 0 <= i < length ==> r@.data[i] == 0i64,
    {
        let mut data: Vec<i64> = Vec::new();
        let mut i: usize = 0;
        while i < length
            invariant
                i <= length,
                data@.len() == i,
                forall|k: int| 0 <= k < i ==> data@[k] == 0i64,
            decreases length - i,
        {
            data.push(0);
            i += 1;
        }
        DelayLine { data, pos: 0, len: length }
    }

    /// The buffer capacity in samples.
    pub fn capacity(&self) -> (r: usize)
        ensures
            r == self@.cap(),
    {
        self.data.len()
    }

    /// The active delay length in samples.
    pub fn length(&self) -> (r: usize)
        ensures
            r == self@.len,
    {
        self.len
    }

    /// The sample written `len` advances ago.
    pub fn read(&self) -> (r: i64)
        requires
            self@.wf(),
        ensures
            r == self@.read_sample(),
    {
        let cap = self.data.len();
        let idx = wrap_index(cap, self.pos + cap - self.len);
        self.data[idx]
    }

    /// Store one sample at the write cursor and advance it.
    pub fn write_and_advance(&mut self, v: i64)
        requires
            old(self)@.wf(),
        ensures
            final(self)@ == old(self)@.write_one(v),
            final(self)@.wf(),
    {
        let cap = self.data.len();
        self.data[self.pos] = v;
        self.pos = wrap_index(cap, self.pos + 1);
    }

    /// Copy the `out.len()` oldest samples of the active span into `out`,
    /// oldest first, without touching the line.
    pub fn read_block(&self, out: &mut Vec<i64>)
        requires
            self@.wf(),
            old(out)@.len() <= self@.len,
        ensures
            final(out)@ == self@.read_seq(old(out)@.len() as int),
    {
        let n = out.len();
        let cap = self.data.len();
        let base = wrap_index(cap, self.pos + cap - self.len);
        let mut i: usize = 0;
        while i < n
            invariant
                i <= n,
                n <= self@.len,
                self@.wf(),
                base == self@.read_index(),
                cap == self@.cap(),
                out@.len() == n,
                forall|k: int|
                    0 <= k < i ==> out@[k] == self@.data[wrap(cap as int, base + k)],
            decreases n - i,
        {
            let idx = wrap_index(cap, base + i);
            out[i] = self.data[idx];
            i += 1;
        }
        assert(out@ =~= self@.read_seq(n as int));
    }

    /// Store a whole block, first sample first, advancing the cursor past it.
    pub fn write_block_and_advance(&mut self, input: &Vec<i64>)
        requires
            old(self)@.wf(),
        ensures
            final(self)@ == old(self)@.write_seq(input@),
            final(self)@.wf(),
    {
        let n = input.len();
        let mut i: usize = 0;
        while i < n
            invariant
                i <= n,
                n == input@.len(),
                self@ == old(self)@.write_seq(input@.take(i as int)),
                self@.wf(),
            decreases n - i,
        {
            proof {
                lemma_write_seq_snoc(old(self)@, input@.take(i as int), input@[i as int]);
                assert(input@.take(i as int).push(input@[i as int]) =~= input@.take(
                    i as int + 1,
                ));
            }
            self.write_and_advance(input[i]);
            i += 1;
        }
        assert(input@.take(n as int) =~= input@);
    }

    /// Linearly interpolated read at a Q16 offset forward of the write
    /// cursor; used for modulated taps. The result lies between the two
    /// bracketing samples.
    pub fn read_at_frac(&self, offset: i64) -> (r: i64)
        requires
            self@.wf(),
            self@.bounded(SAMPLE_LIMIT as int),
            0 <= offset,
            offset < (self@.cap() - 1) * UNIT,
        ensures
            ({
                let fl = offset as int / UNIT as int;
                let fr = offset as int % UNIT as int;
                let a = self@.data[wrap(self@.cap(), self@.pos + fl)];
                let b = self@.data[wrap(self@.cap(), self@.pos + fl + 1)];
                r == a + qmul(b - a, fr)
            }),
            -SAMPLE_LIMIT <= r <= SAMPLE_LIMIT,
    {
        let cap = self.data.len();
        let fl: usize = (offset / UNIT) as usize;
        let fr: i64 = offset % UNIT;
        proof {
            assert((offset as int) / (UNIT as int) < cap - 1) by (nonlinear_arith)
                requires
                    offset < (cap - 1) * UNIT,
                    offset >= 0,
                    cap >= 1,
                    UNIT == 65536,
            ;
        }
        let idx0 = wrap_index(cap, self.pos + fl);
        let idx1 = wrap_index(cap, self.pos + fl + 1);
        let a = self.data[idx0];
        let b = self.data[idx1];
        let step = mul_gain(b - a, fr);
        proof {
            crate::fixed::lemma_gain_contracts((b - a) as int, fr as int);
        }
        a + step
    }

    /// Rescale the active length to the Q16 fraction `f` of the capacity,
    /// never below one sample; buffer and cursor are untouched.
    pub fn set_length_fraction(&mut self, f: i64)
        requires
            old(self)@.wf(),
            0 <= f <= UNIT,
        ensures
            final(self)@.len == old(self)@.scaled_len(f as int),
            final(self)@.data == old(self)@.data,
            final(self)@.pos == old(self)@.pos,
            final(self)@.wf(),
    {
        let cap = self.data.len();
        proof {
            assert(cap * f <= MAX_CAPACITY * UNIT) by (nonlinear_arith)
                requires
                    0 <= f <= UNIT,
                    0 <= cap <= MAX_CAPACITY,
            ;
        }
        let prod: u64 = (cap as u64) * (f as u64);
        let scaled: u64 = prod / (UNIT as u64);
        proof {
            assert(cap * f <= cap * UNIT) by (nonlinear_arith)
                requires
                    0 <= f <= UNIT,
                    cap >= 0,
            ;
            assert((cap * f) / (UNIT as int) <= cap) by (nonlinear_arith)
                requires
                    cap * f <= cap * UNIT,
                    cap * f >= 0,
                    cap >= 0,
                    UNIT == 65536,
            ;
            assert(cap * f >= 0) by (nonlinear_arith)
                requires
                    cap >= 0,
                    f >= 0,
            ;
        }
        self.len = if scaled == 0 {
            1
        } else {
            scaled as usize
        };
    }
}

} // verus!
