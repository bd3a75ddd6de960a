//! Stateless orthogonal mixing transforms.
//!
//! The Hadamard butterfly and the Householder full-mix reflection, both over
//! integer samples so that their algebra is exact, plus the laws they obey:
//! the Hadamard transform applied twice scales a power-of-two frame by its
//! length, and the Householder reflection preserves the sum of squares
//! whenever its shift is exact.

use vstd::prelude::*;

verus! {

use crate::fixed::FRAME_LIMIT;
use crate::fixed::tdiv;

/// A frame of samples as mathematical integers.
pub open spec fn ints(s: Seq<i64>) -> Seq<int> {
    Seq::new(s.len(), |i: int| s[i] as int)
}

/// Whether `n` is a power of two.
pub open spec fn is_pow2(n: int) -> bool
    decreases n,
{
    if n <= 0 {
        false
    } else if n == 1 {
        true
    } else {
        n % 2 == 0 && is_pow2(n / 2)
    }
}

/// The Hadamard transform: transform each half, then combine pairwise as
/// `(a + b, a - b)`. A frame of length below two is returned unchanged.
pub open spec fn whad(s: Seq<int>) -> Seq<int>
    decreases s.len(),
{
    if s.len() <= 1 {
        s
    } else {
        let n = s.len() as int;
        let d = n / 2;
        let a = whad(s.subrange(0, d));
        let b = whad(s.subrange(d, n));
        Seq::new(
            s.len(),
            |i: int|
                if i < d {
                    a[i] + b[i]
                } else if i < 2 * d {
                    a[i - d] - b[i - d]
                } else {
                    b[i - d]
                },
        )
    }
}

pub proof fn lemma_whad_len(s: Seq<int>)
    ensures
        whad(s).len() == s.len(),
    decreases s.len(),
{
    if s.len() > 1 {
        let n = s.len() as int;
        let d = n / 2;
        lemma_whad_len(s.subrange(0, d));
        lemma_whad_len(s.subrange(d, n));
    }
}

/// The transform of a frame bounded by `b` is bounded by `len * b`.
pub proof fn lemma_whad_bound(s: Seq<int>, b: int)
    requires
        b >= 0,
        forall|i: int| 0 <= i < s.len() ==> -b <= #[trigger] s[i] <= b,
    ensures
        forall|i: int|
            0 <= i < s.len() ==> -(s.len() * b) <= #[trigger] whad(s)[i] <= s.len() * b,
    decreases s.len(),
{
    lemma_whad_len(s);
    if s.len() <= 1 {
        assert forall|i: int| 0 <= i < s.len() implies -(s.len() * b) <= #[trigger] whad(s)[i]
            <= s.len() * b by {
            assert(s.len() * b == b) by (nonlinear_arith)
                requires
                    s.len() == 1,
            ;
        }
    } else {
        let n = s.len() as int;
        let d = n / 2;
        let s0 = s.subrange(0, d);
        let s1 = s.subrange(d, n);
        let a = whad(s0);
        let c = whad(s1);
        lemma_whad_len(s0);
        lemma_whad_len(s1);
        lemma_whad_bound(s0, b);
        lemma_whad_bound(s1, b);
        assert forall|i: int| 0 <= i < s.len() implies -(s.len() * b) <= #[trigger] whad(s)[i]
            <= s.len() * b by {
            assert(d * b + (n - d) * b == n * b) by (nonlinear_arith);
            assert(d * b >= 0 && (n - d) * b >= 0) by (nonlinear_arith)
                requires
                    b >= 0,
                    0 <= d <= n,
            ;
        }
    }
}

/// In-place Hadamard butterfly over `frame[lo..hi]`; everything outside that
/// span is untouched.
fn hadamard_range(frame: &mut Vec<i64>, lo: usize, hi: usize)
    requires
        lo <= hi <= old(frame)@.len(),
        hi - lo <= 64,
        forall|i: int|
            lo <= i < hi ==> -FRAME_LIMIT <= #[trigger] old(frame)@[i] <= FRAME_LIMIT,
    ensures
        final(frame)@.len() == old(frame)@.len(),
        ints(final(frame)@.subrange(lo as int, hi as int)) == whad(
            ints(old(frame)@.subrange(lo as int, hi as int)),
        ),
        forall|i: int|
            0 <= i < old(frame)@.len() && !(lo <= i < hi) ==> final(frame)@[i] == old(
                frame,
            )@[i],
    decreases hi - lo,
{
    let n = hi - lo;
    let ghost s = ints(old(frame)@.subrange(lo as int, hi as int));
    proof {
        lemma_whad_len(s);
    }
    if n <= 1 {
        assert(ints(frame@.subrange(lo as int, hi as int)) =~= whad(s));
        return ;
    }
    let d = n / 2;
    let mid = lo + d;
    let ghost s0 = ints(old(frame)@.subrange(lo as int, mid as int));
    let ghost s1 = ints(old(frame)@.subrange(mid as int, hi as int));
    proof {
        assert(s.subrange(0, d as int) =~= s0);
        assert(s.subrange(d as int, n as int) =~= s1);
        lemma_whad_len(s0);
        lemma_whad_len(s1);
    }
    hadamard_range(frame, lo, mid);
    let ghost st1 = frame@;
    hadamard_range(frame, mid, hi);
    let ghost st2 = frame@;
    let ghost a = whad(s0);
    let ghost b = whad(s1);
    proof {
        lemma_whad_bound(s0, FRAME_LIMIT as int);
        lemma_whad_bound(s1, FRAME_LIMIT as int);
        assert(st1.subrange(mid as int, hi as int) =~= old(frame)@.subrange(
            mid as int,
            hi as int,
        ));
        assert(ints(st2.subrange(lo as int, mid as int)) =~= ints(
            st1.subrange(lo as int, mid as int),
        ));
        assert(ints(st2.subrange(lo as int, mid as int)) == a);
        assert(ints(st2.subrange(mid as int, hi as int)) == b);
        assert forall|i: int| 0 <= i < d implies st2[lo + i] == a[i] by {
            assert(a[i] == ints(st2.subrange(lo as int, mid as int))[i]);
        }
        assert forall|i: int| 0 <= i < n - d implies st2[mid + i] == b[i] by {
            assert(b[i] == ints(st2.subrange(mid as int, hi as int))[i]);
        }
    }
    let mut j: usize = 0;
    while j < d
        invariant
            j <= d,
            d == n / 2,
            n == hi - lo,
            2 <= n <= 64,
            mid == lo + d,
            lo <= mid <= hi <= frame@.len(),
            frame@.len() == st2.len(),
            a == whad(s0),
            b == whad(s1),
            a.len() == d,
            b.len() == n - d,
            forall|i: int| 0 <= i < d ==> -(d * FRAME_LIMIT) <= #[trigger] a[i] <= d * FRAME_LIMIT,
            forall|i: int|
                0 <= i < n - d ==> -((n - d) * FRAME_LIMIT) <= #[trigger] b[i] <= (n - d)
                    * FRAME_LIMIT,
            forall|i: int| 0 <= i < d ==> st2[lo + i] == a[i],
            forall|i: int| 0 <= i < n - d ==> st2[mid + i] == b[i],
            forall|k: int| 0 <= k < j ==> frame@[lo + k] == a[k] + b[k],
            forall|k: int| 0 <= k < j ==> frame@[mid + k] == a[k] - b[k],
            forall|i: int|
                0 <= i < frame@.len() && !(lo <= i < lo + j) && !(mid <= i < mid + j)
                    ==> frame@[i] == st2[i],
        decreases d - j,
    {
        let x = frame[lo + j];
        let y = frame[mid + j];
        proof {
            assert(x == a[j as int]);
            assert(y == b[j as int]);
            assert(d * FRAME_LIMIT + (n - d) * FRAME_LIMIT == n * FRAME_LIMIT) by (nonlinear_arith);
            assert(n * FRAME_LIMIT <= 64 * FRAME_LIMIT) by (nonlinear_arith)
                requires
                    2 <= n <= 64,
            ;
            assert(-(64 * FRAME_LIMIT) <= x + y <= 64 * FRAME_LIMIT);
            assert(-(64 * FRAME_LIMIT) <= x - y <= 64 * FRAME_LIMIT);
        }
        frame[lo + j] = x + y;
        frame[mid + j] = x - y;
        j += 1;
    }
    proof {
        assert(ints(frame@.subrange(lo as int, hi as int)) =~= whad(s));
    }
}

/// The Hadamard transform of a whole frame, in place.
pub fn hadamard_recursive(frame: &mut Vec<i64>)
    requires
        old(frame)@.len() <= 64,
        forall|i: int|
            0 <= i < old(frame)@.len() ==> -FRAME_LIMIT <= #[trigger] old(frame)@[i]
                <= FRAME_LIMIT,
    ensures
        final(frame)@.len() == old(frame)@.len(),
        ints(final(frame)@) == whad(ints(old(frame)@)),
{
    let n = frame.len();
    hadamard_range(frame, 0, n);
    proof {
        assert(old(frame)@.subrange(0, n as int) =~= old(frame)@);
        assert(frame@.subrange(0, n as int) =~= frame@);
    }
}

/// Entry `(i, j)` of the order-`n` Hadamard matrix, by quadrant recursion.
pub open spec fn had_entry(n: int, i: int, j: int) -> int
    decreases n,
{
    if n <= 1 {
        1
    } else {
        let h = n / 2;
        if i < h && j < h {
            had_entry(h, i, j)
        } else if i >= h && j < h {
            had_entry(h, i - h, j)
        } else if i < h && j >= h {
            had_entry(h, i, j - h)
        } else {
            -had_entry(h, i - h, j - h)
        }
    }
}

/// Every entry of a Hadamard matrix is `1` or `-1`.
pub proof fn lemma_had_entry_unit(n: int, i: int, j: int)
    ensures
        had_entry(n, i, j) == 1 || had_entry(n, i, j) == -1,
    decreases n,
{
    if n > 1 {
        let h = n / 2;
        if i < h && j < h {
            lemma_had_entry_unit(h, i, j);
        } else if i >= h && j < h {
            lemma_had_entry_unit(h, i - h, j);
        } else if i < h && j >= h {
            lemma_had_entry_unit(h, i, j - h);
        } else {
            lemma_had_entry_unit(h, i - h, j - h);
        }
    }
}

/// The order-`n` Hadamard matrix of `1` and `-1` entries, for `n` a power of
/// two.
pub fn hadamard(n: usize) -> (m: Vec<Vec<i64>>)
    requires
        is_pow2(n as int),
        n <= 4096,
    ensures
        m@.len() == n,
        forall|i: int| 0 <= i < n ==> (#[trigger] m@[i])@.len() == n,
        forall|i: int, j: int|
            0 <= i < n && 0 <= j < n ==> #[trigger] m@[i]@[j] == had_entry(n as int, i, j),
    decreases n,
{
    if n == 1 {
        let mut row: Vec<i64> = Vec::new();
        row.push(1);
        let mut m: Vec<Vec<i64>> = Vec::new();
        m.push(row);
        return m;
    }
    let h = n / 2;
    assert(n == 2 * h);
    assert(is_pow2(h as int));
    let sub = hadamard(h);
    let mut m: Vec<Vec<i64>> = Vec::new();
    let mut i: usize = 0;
    while i < n
        invariant
            i <= n,
            n == 2 * h,
            1 <= h <= 2048,
            m@.len() == i,
            sub@.len() == h,
            forall|r: int| 0 <= r < h ==> (#[trigger] sub@[r])@.len() == h,
            forall|r: int, c: int|
                0 <= r < h && 0 <= c < h ==> #[trigger] sub@[r]@[c] == had_entry(h as int, r, c),
            forall|r: int| 0 <= r < i ==> (#[trigger] m@[r])@.len() == n,
            forall|r: int, c: int|
                0 <= r < i && 0 <= c < n ==> #[trigger] m@[r]@[c] == had_entry(n as int, r, c),
        decreases n - i,
    {
        let mut row: Vec<i64> = Vec::new();
        let mut j: usize = 0;
        while j < n
            invariant
                j <= n,
                i < n,
                n == 2 * h,
                1 <= h <= 2048,
                row@.len() == j,
                sub@.len() == h,
                forall|r: int| 0 <= r < h ==> (#[trigger] sub@[r])@.len() == h,
                forall|r: int, c: int|
                    0 <= r < h && 0 <= c < h ==> #[trigger] sub@[r]@[c] == had_entry(
                        h as int,
                        r,
                        c,
                    ),
                forall|c: int| 0 <= c < j ==> #[trigger] row@[c] == had_entry(n as int, i as int, c),
            decreases n - j,
        {
            let v: i64 = if i < h && j < h {
                sub[i][j]
            } else if i >= h && j < h {
                sub[i - h][j]
            } else if i < h {
                sub[i][j - h]
            } else {
                proof {
                    lemma_had_entry_unit(h as int, i - h, j - h);
                }
                -sub[i - h][j - h]
            };
            row.push(v);
            j += 1;
        }
        m.push(row);
        i += 1;
    }
    m
}

/// Pairwise sum of two frames of the same length.
pub open spec fn seq_add(x: Seq<int>, y: Seq<int>) -> Seq<int> {
    Seq::new(x.len(), |i: int| x[i] + y[i])
}

/// Pairwise difference of two frames of the same length.
pub open spec fn seq_sub(x: Seq<int>, y: Seq<int>) -> Seq<int> {
    Seq::new(x.len(), |i: int| x[i] - y[i])
}

/// A frame scaled by `k`.
pub open spec fn seq_scale(k: int, x: Seq<int>) -> Seq<int> {
    Seq::new(x.len(), |i: int| k * x[i])
}

/// The Hadamard transform distributes over pairwise sums.
proof fn lemma_whad_add(x: Seq<int>, y: Seq<int>)
    requires
        x.len() == y.len(),
    ensures
        whad(seq_add(x, y)) == seq_add(whad(x), whad(y)),
    decreases x.len(),
{
    lemma_whad_len(x);
    lemma_whad_len(y);
    lemma_whad_len(seq_add(x, y));
    let n = x.len() as int;
    if n <= 1 {
        assert(whad(seq_add(x, y)) =~= seq_add(whad(x), whad(y)));
    } else {
        let d = n / 2;
        let sxy = seq_add(x, y);
        let x0 = x.subrange(0, d);
        let x1 = x.subrange(d, n);
        let y0 = y.subrange(0, d);
        let y1 = y.subrange(d, n);
        assert(sxy.subrange(0, d) =~= seq_add(x0, y0));
        assert(sxy.subrange(d, n) =~= seq_add(x1, y1));
        lemma_whad_add(x0, y0);
        lemma_whad_add(x1, y1);
        lemma_whad_len(x0);
        lemma_whad_len(x1);
        lemma_whad_len(y0);
        lemma_whad_len(y1);
        assert(whad(seq_add(x, y)) =~= seq_add(whad(x), whad(y)));
    }
}

/// The Hadamard transform distributes over pairwise differences.
proof fn lemma_whad_sub(x: Seq<int>, y: Seq<int>)
    requires
        x.len() == y.len(),
    ensures
        whad(seq_sub(x, y)) == seq_sub(whad(x), whad(y)),
    decreases x.len(),
{
    lemma_whad_len(x);
    lemma_whad_len(y);
    lemma_whad_len(seq_sub(x, y));
    let n = x.len() as int;
    if n <= 1 {
        assert(whad(seq_sub(x, y)) =~= seq_sub(whad(x), whad(y)));
    } else {
        let d = n / 2;
        let sxy = seq_sub(x, y);
        let x0 = x.subrange(0, d);
        let x1 = x.subrange(d, n);
        let y0 = y.subrange(0, d);
        let y1 = y.subrange(d, n);
        assert(sxy.subrange(0, d) =~= seq_sub(x0, y0));
        assert(sxy.subrange(d, n) =~= seq_sub(x1, y1));
        lemma_whad_sub(x0, y0);
        lemma_whad_sub(x1, y1);
        lemma_whad_len(x0);
        lemma_whad_len(x1);
        lemma_whad_len(y0);
        lemma_whad_len(y1);
        assert(whad(seq_sub(x, y)) =~= seq_sub(whad(x), whad(y)));
    }
}

/// Law: applying the Hadamard transform twice to a power-of-two frame
/// returns the original frame scaled by its length.
pub proof fn lemma_hadamard_self_inverse(s: Seq<int>)
    requires
        is_pow2(s.len() as int),
    ensures
        whad(whad(s)) == seq_scale(s.len() as int, s),
    decreases s.len(),
{
    lemma_whad_len(s);
    lemma_whad_len(whad(s));
    let n = s.len() as int;
    if n == 1 {
        assert(whad(whad(s)) =~= seq_scale(1, s));
    } else {
        let d = n / 2;
        assert(n % 2 == 0);
        assert(n == 2 * d);
        let s0 = s.subrange(0, d);
        let s1 = s.subrange(d, n);
        assert(is_pow2(d));
        lemma_hadamard_self_inverse(s0);
        lemma_hadamard_self_inverse(s1);
        let a = whad(s0);
        let b = whad(s1);
        lemma_whad_len(s0);
        lemma_whad_len(s1);
        let w = whad(s);
        assert(w.subrange(0, d) =~= seq_add(a, b));
        assert(w.subrange(d, n) =~= seq_sub(a, b));
        lemma_whad_add(a, b);
        lemma_whad_sub(a, b);
        lemma_whad_len(seq_add(a, b));
        lemma_whad_len(seq_sub(a, b));
        lemma_whad_len(a);
        lemma_whad_len(b);
        assert forall|i: int| 0 <= i < n implies whad(w)[i] == n * s[i] by {
            if i < d {
                assert(whad(w)[i] == whad(seq_add(a, b))[i] + whad(seq_sub(a, b))[i]);
                assert(whad(seq_add(a, b))[i] == whad(a)[i] + whad(b)[i]);
                assert(whad(seq_sub(a, b))[i] == whad(a)[i] - whad(b)[i]);
                assert(whad(a)[i] == d * s0[i]);
                assert(whad(b)[i] == d * s1[i]);
                assert(d * s0[i] + d * s1[i] + (d * s0[i] - d * s1[i]) == 2 * (d * s0[i]));
                assert(2 * (d * s0[i]) == n * s0[i]) by (nonlinear_arith)
                    requires
                        n == 2 * d,
                ;
                assert(s0[i] == s[i]);
            } else {
                let k = i - d;
                assert(whad(w)[i] == whad(seq_add(a, b))[k] - whad(seq_sub(a, b))[k]);
                assert(whad(seq_add(a, b))[k] == whad(a)[k] + whad(b)[k]);
                assert(whad(seq_sub(a, b))[k] == whad(a)[k] - whad(b)[k]);
                assert(whad(a)[k] == d * s0[k]);
                assert(whad(b)[k] == d * s1[k]);
                assert(d * s0[k] + d * s1[k] - (d * s0[k] - d * s1[k]) == 2 * (d * s1[k]));
                assert(2 * (d * s1[k]) == n * s1[k]) by (nonlinear_arith)
                    requires
                        n == 2 * d,
                ;
                assert(s1[k] == s[i]);
            }
        }
        assert(whad(whad(s)) =~= seq_scale(n, s));
    }
}

/// Sum of a frame.
pub open spec fn sum_seq(s: Seq<int>) -> int
    decreases s.len(),
{
    if s.len() == 0 {
        0
    } else {
        sum_seq(s.drop_last()) + s.last()
    }
}

/// Sum of squares of a frame: its energy.
pub open spec fn sum_sq(s: Seq<int>) -> int
    decreases s.len(),
{
    if s.len() == 0 {
        0
    } else {
        sum_sq(s.drop_last()) + s.last() * s.last()
    }
}

/// The shift the Householder reflection adds to every sample: minus twice the
/// frame mean, truncated toward zero.
pub open spec fn hh_shift(s: Seq<int>) -> int {
    -tdiv(2 * sum_seq(s), s.len() as int)
}

/// The Householder reflection of a frame.
pub open spec fn hh(s: Seq<int>) -> Seq<int> {
    Seq::new(s.len(), |i: int| s[i] + hh_shift(s))
}

/// The sum of a frame is bounded by its length times its bound.
pub proof fn lemma_sum_bound(s: Seq<int>, b: int)
    requires
        b >= 0,
        forall|i: int| 0 <= i < s.len() ==> -b <= #[trigger] s[i] <= b,
    ensures
        -(s.len() * b) <= sum_seq(s) <= s.len() * b,
    decreases s.len(),
{
    if s.len() > 0 {
        lemma_sum_bound(s.drop_last(), b);
        assert((s.len() - 1) * b + b == s.len() * b) by (nonlinear_arith);
    }
}

/// The reflection of a frame bounded by `b` is bounded by `3 * b`: the shift
/// is at most twice the mean magnitude.
pub proof fn lemma_hh_bound(s: Seq<int>, b: int)
    requires
        s.len() >= 1,
        b >= 0,
        forall|i: int| 0 <= i < s.len() ==> -b <= #[trigger] s[i] <= b,
    ensures
        forall|i: int| 0 <= i < s.len() ==> -3 * b <= #[trigger] hh(s)[i] <= 3 * b,
{
    let n = s.len() as int;
    lemma_sum_bound(s, b);
    let a = 2 * sum_seq(s);
    assert(-(2 * n * b) <= a <= 2 * n * b) by (nonlinear_arith)
        requires
            a == 2 * sum_seq(s),
            -(n * b) <= sum_seq(s) <= n * b,
    ;
    if a >= 0 {
        assert(a / n <= 2 * b) by (nonlinear_arith)
            requires
                0 <= a <= 2 * n * b,
                n >= 1,
        ;
        assert(a / n >= 0) by (nonlinear_arith)
            requires
                a >= 0,
                n >= 1,
        ;
    } else {
        assert((-a) / n <= 2 * b) by (nonlinear_arith)
            requires
                0 <= -a <= 2 * n * b,
                n >= 1,
        ;
        assert((-a) / n >= 0) by (nonlinear_arith)
            requires
                -a >= 0,
                n >= 1,
        ;
    }
    assert(-(2 * b) <= hh_shift(s) <= 2 * b);
}

/// The Householder full-mix reflection: add `-2/len` times the frame sum to
/// every sample, in place.
pub struct Householder;

impl Householder {
    /// Reflect the frame in place.
    pub fn in_place(frame: &mut Vec<i64>)
        requires
            1 <= old(frame)@.len() <= 64,
            forall|i: int|
                0 <= i < old(frame)@.len() ==> -FRAME_LIMIT <= #[trigger] old(frame)@[i]
                    <= FRAME_LIMIT,
        ensures
            final(frame)@.len() == old(frame)@.len(),
            ints(final(frame)@) == hh(ints(old(frame)@)),
    {
        let n = frame.len();
        let ghost s = ints(old(frame)@);
        let mut sum: i64 = 0;
        let mut i: usize = 0;
        while i < n
            invariant
                i <= n,
                n == frame@.len(),
                frame@ == old(frame)@,
                s == ints(old(frame)@),
                forall|k: int|
                    0 <= k < n ==> -FRAME_LIMIT <= #[trigger] frame@[k] <= FRAME_LIMIT,
                n <= 64,
                sum == sum_seq(s.take(i as int)),
                -(i * FRAME_LIMIT) <= sum <= i * FRAME_LIMIT,
            decreases n - i,
        {
            proof {
                assert(s.take(i as int + 1).drop_last() =~= s.take(i as int));
                assert(s.take(i as int + 1).last() == s[i as int]);
                assert(i * FRAME_LIMIT + FRAME_LIMIT == (i + 1) * FRAME_LIMIT) by (nonlinear_arith);
            }
            sum = sum + frame[i];
            i += 1;
        }
        proof {
            assert(s.take(n as int) =~= s);
            assert(n * FRAME_LIMIT <= 64 * FRAME_LIMIT) by (nonlinear_arith)
                requires
                    1 <= n <= 64,
            ;
        }
        let wide: i128 = 2 * (sum as i128);
        let mag: u128 = if wide >= 0 {
            wide as u128
        } else {
            (-wide) as u128
        };
        let q: u128 = mag / (n as u128);
        proof {
            assert(mag <= 2 * n * FRAME_LIMIT) by (nonlinear_arith)
                requires
                    mag == (if 2 * sum >= 0 {
                        2 * sum
                    } else {
                        -(2 * sum)
                    }),
                    -(n * FRAME_LIMIT) <= sum <= n * FRAME_LIMIT,
            ;
            assert((mag as int) / (n as int) <= 2 * FRAME_LIMIT) by (nonlinear_arith)
                requires
                    mag <= 2 * n * FRAME_LIMIT,
                    mag >= 0,
                    1 <= n,
            ;
        }
        let shift: i64 = if wide >= 0 {
            -((q as i64))
        } else {
            q as i64
        };
        proof {
            assert(shift == hh_shift(s));
        }
        let mut i: usize = 0;
        while i < n
            invariant
                i <= n,
                n == frame@.len(),
                -2 * FRAME_LIMIT <= shift <= 2 * FRAME_LIMIT,
                forall|k: int|
                    i <= k < n ==> #[trigger] frame@[k] == old(frame)@[k],
                forall|k: int|
                    0 <= k < n ==> -FRAME_LIMIT <= #[trigger] old(frame)@[k] <= FRAME_LIMIT,
                forall|k: int|
                    0 <= k < i ==> #[trigger] frame@[k] == old(frame)@[k] + shift,
            decreases n - i,
        {
            frame[i] = frame[i] + shift;
            i += 1;
        }
        proof {
            assert(ints(frame@) =~= hh(ints(old(frame)@)));
        }
    }
}

/// A frame with `k` added to every sample.
pub open spec fn shifted(s: Seq<int>, k: int) -> Seq<int> {
    Seq::new(s.len(), |i: int| s[i] + k)
}

proof fn lemma_sum_shifted(s: Seq<int>, k: int)
    ensures
        sum_seq(shifted(s, k)) == sum_seq(s) + s.len() * k,
    decreases s.len(),
{
    if s.len() == 0 {
        assert(shifted(s, k) =~= Seq::<int>::empty());
    } else {
        assert(shifted(s, k).drop_last() =~= shifted(s.drop_last(), k));
        lemma_sum_shifted(s.drop_last(), k);
        assert((s.len() - 1) * k + k == s.len() * k) by (nonlinear_arith);
        assert(shifted(s, k).last() == s.last() + k);
    }
}

proof fn lemma_sum_sq_shifted(s: Seq<int>, k: int)
    ensures
        sum_sq(shifted(s, k)) == sum_sq(s) + 2 * k * sum_seq(s) + s.len() * (k * k),
    decreases s.len(),
{
    if s.len() == 0 {
        assert(shifted(s, k) =~= Seq::<int>::empty());
    } else {
        assert(shifted(s, k).drop_last() =~= shifted(s.drop_last(), k));
        lemma_sum_sq_shifted(s.drop_last(), k);
        assert(shifted(s, k).last() == s.last() + k);
        assert((s.last() + k) * (s.last() + k) == s.last() * s.last() + 2 * k * s.last() + k * k)
            by (nonlinear_arith);
        assert(2 * k * (sum_seq(s.drop_last()) + s.last()) == 2 * k * sum_seq(s.drop_last()) + 2 * k
            * s.last()) by (nonlinear_arith);
        assert((s.len() - 1) * (k * k) + k * k == s.len() * (k * k)) by (nonlinear_arith);
    }
}

/// Exact division: when `d` divides `a`, the truncating quotient recovers
/// `a` on multiplication.
proof fn lemma_tdiv_exact(a: int, d: int)
    requires
        d > 0,
        a % d == 0,
    ensures
        d * tdiv(a, d) == a,
{
    vstd::arithmetic::div_mod::lemma_fundamental_div_mod(a, d);
    if a >= 0 {
    } else {
        assert(a == d * (a / d));
        vstd::arithmetic::div_mod::lemma_div_multiples_vanish(-(a / d), d);
        assert(d * (-(a / d)) == -a) by (nonlinear_arith)
            requires
                a == d * (a / d),
        ;
        assert((-a) / d == -(a / d));
        assert(tdiv(a, d) == a / d);
    }
}

/// The truncating quotient of an exact multiple is the multiplier.
pub proof fn lemma_tdiv_mul(k: int, d: int)
    requires
        d > 0,
    ensures
        tdiv(d * k, d) == k,
{
    vstd::arithmetic::div_mod::lemma_mod_multiples_basic(k, d);
    assert(k * d == d * k) by (nonlinear_arith);
    lemma_tdiv_exact(d * k, d);
    assert(tdiv(d * k, d) == k) by (nonlinear_arith)
        requires
            d * tdiv(d * k, d) == d * k,
            d > 0,
    ;
}

/// Law: the Householder reflection preserves the sum of squares of the frame
/// whenever its shift is exact, i.e. the frame length divides twice the
/// frame sum.
pub proof fn lemma_householder_preserves_energy(s: Seq<int>)
    requires
        s.len() >= 1,
        (2 * sum_seq(s)) % (s.len() as int) == 0,
    ensures
        sum_sq(hh(s)) == sum_sq(s),
{
    let n = s.len() as int;
    let k = hh_shift(s);
    lemma_tdiv_exact(2 * sum_seq(s), n);
    assert(n * (-k) == 2 * sum_seq(s));
    assert(n * k == -(n * (-k))) by (nonlinear_arith);
    assert(hh(s) =~= shifted(s, k));
    lemma_sum_sq_shifted(s, k);
    assert(2 * k * sum_seq(s) + n * (k * k) == k * (2 * sum_seq(s) + n * k)) by (nonlinear_arith);
    assert(2 * sum_seq(s) + n * k == 0);
    assert(k * 0 == 0) by (nonlinear_arith);
}

/// Law: the Householder reflection is its own inverse whenever its shift is
/// exact.
pub proof fn lemma_householder_self_inverse(s: Seq<int>)
    requires
        s.len() >= 1,
        (2 * sum_seq(s)) % (s.len() as int) == 0,
    ensures
        hh(hh(s)) == s,
{
    let n = s.len() as int;
    let k = hh_shift(s);
    lemma_tdiv_exact(2 * sum_seq(s), n);
    assert(n * (-k) == 2 * sum_seq(s));
    assert(n * k == -(n * (-k))) by (nonlinear_arith);
    assert(hh(s) =~= shifted(s, k));
    lemma_sum_shifted(s, k);
    assert(sum_seq(hh(s)) == sum_seq(s) + n * k);
    assert(2 * sum_seq(hh(s)) == n * k) by (nonlinear_arith)
        requires
            sum_seq(hh(s)) == sum_seq(s) + n * k,
            n * k == -2 * sum_seq(s),
    ;
    lemma_tdiv_mul(k, n);
    assert(hh_shift(hh(s)) == -k);
    assert(hh(hh(s)) =~= s);
}

} // verus!
