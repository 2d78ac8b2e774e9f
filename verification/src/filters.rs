//! Low-pass moving-average filter over the last `N` samples.

use vstd::prelude::*;

verus! {

/// The sum of the samples of `s`.
pub open spec fn seq_sum(s: Seq<u16>) -> int
    decreases s.len(),
{
    if s.len() == 0 {
        0
    } else {
        seq_sum(s.drop_last()) + s.last()
    }
}

/// The mean of a non-empty window, rounded down.
pub open spec fn mean_spec(w: Seq<u16>) -> int {
    seq_sum(w) / (w.len() as int)
}

/// The window of capacity `cap` after `x` arrives: `x` appended, and the oldest
/// sample dropped once the window already holds `cap` samples.
pub open spec fn slide_n(w: Seq<u16>, x: u16, cap: nat) -> Seq<u16> {
    if w.len() < cap {
        w.push(x)
    } else {
        w.drop_first().push(x)
    }
}

/// The window left by feeding the samples `xs` in order, starting from window
/// `w`, for a window of capacity `cap`.
pub open spec fn window_after(w: Seq<u16>, xs: Seq<u16>, cap: nat) -> Seq<u16>
    decreases xs.len(),
{
    if xs.len() == 0 {
        w
    } else {
        slide_n(window_after(w, xs.drop_last(), cap), xs.last(), cap)
    }
}

/// One more sample slides the window once more: the windows left by
/// successive calls are those of `window_after`.
pub proof fn lemma_window_after_push(w: Seq<u16>, xs: Seq<u16>, x: u16, cap: nat)
    ensures
        window_after(w, xs.push(x), cap) == slide_n(window_after(w, xs, cap), x, cap),
{
    assert(xs.push(x).drop_last() =~= xs);
}

/// The last `cap` samples of `xs`, or all of them when there are fewer.
pub open spec fn recent(xs: Seq<u16>, cap: nat) -> Seq<u16> {
    if xs.len() <= cap {
        xs
    } else {
        xs.skip(xs.len() - cap)
    }
}

/// Feeding samples to an empty window of capacity `cap` leaves exactly the
/// last `cap` of them (all of them while there are fewer), oldest first.
pub proof fn lemma_window_from_empty(xs: Seq<u16>, cap: nat)
    requires
        cap > 0,
    ensures
        window_after(Seq::empty(), xs, cap) == recent(xs, cap),
    decreases xs.len(),
{
    if xs.len() > 0 {
        let prev = xs.drop_last();
        lemma_window_from_empty(prev, cap);
        if prev.len() < cap {
            assert(prev.push(xs.last()) =~= xs);
        } else {
            assert(recent(prev, cap).drop_first().push(xs.last()) =~= xs.skip(xs.len() - cap));
        }
    }
}

/// Windows that share their last `cap - 1` samples, each holding at least
/// that many, become equal once the same sample arrives: older samples have no
/// effect.
pub proof fn lemma_window_forgets_old(xs: Seq<u16>, ys: Seq<u16>, x: u16, cap: nat)
    requires
        cap > 0,
        xs.len() >= cap - 1,
        ys.len() >= cap - 1,
        xs.skip(xs.len() - (cap - 1)) == ys.skip(ys.len() - (cap - 1)),
    ensures
        window_after(Seq::empty(), xs.push(x), cap) == window_after(Seq::empty(), ys.push(x), cap),
{
    lemma_window_from_empty(xs.push(x), cap);
    lemma_window_from_empty(ys.push(x), cap);
    let k = (cap - 1) as int;
    assert(recent(xs.push(x), cap) =~= xs.skip(xs.len() - k).push(x));
    assert(recent(ys.push(x), cap) =~= ys.skip(ys.len() - k).push(x));
}

/// The capacities that the filter supports: at least one sample, and a window
/// length that the `u32` divisor of the mean can hold.
pub open spec fn valid_capacity(n: usize) -> bool {
    0 < n && n <= u32::MAX
}

/// The samples of a ring buffer, oldest first: the slots from the write
/// position on, then those before it, once the buffer has been filled; before
/// that, the slots written so far.
pub open spec fn ring_window(buf: Seq<u16>, idx: int, filled: bool) -> Seq<u16> {
    if filled {
        buf.skip(idx) + buf.take(idx)
    } else {
        buf.take(idx)
    }
}

/// The sum of a concatenation is the sum of its parts.
pub proof fn lemma_sum_concat(a: Seq<u16>, b: Seq<u16>)
    ensures
        seq_sum(a + b) == seq_sum(a) + seq_sum(b),
    decreases b.len(),
{
    if b.len() == 0 {
        assert(a + b =~= a);
    } else {
        lemma_sum_concat(a, b.drop_last());
        assert((a + b).drop_last() =~= a + b.drop_last());
    }
}

/// Replacing a sample changes the sum by the difference.
pub proof fn lemma_sum_update(s: Seq<u16>, i: int, v: u16)
    requires
        0 <= i < s.len(),
    ensures
        seq_sum(s.update(i, v)) == seq_sum(s) - s[i] + v,
        s[i] <= seq_sum(s),
{
    let t = s.update(i, v);
    assert(s =~= s.take(i) + seq![s[i]] + s.skip(i + 1));
    assert(t =~= s.take(i) + seq![v] + s.skip(i + 1));
    lemma_sum_concat(s.take(i) + seq![s[i]], s.skip(i + 1));
    lemma_sum_concat(s.take(i), seq![s[i]]);
    lemma_sum_concat(s.take(i) + seq![v], s.skip(i + 1));
    lemma_sum_concat(s.take(i), seq![v]);
    assert(seq![s[i]].drop_last() =~= Seq::<u16>::empty());
    assert(seq![v].drop_last() =~= Seq::<u16>::empty());
    assert(seq_sum(Seq::<u16>::empty()) == 0);
    assert(seq_sum(seq![s[i]]) == s[i]);
    assert(seq_sum(seq![v]) == v);
    lemma_sum_nonneg(s.take(i));
    lemma_sum_nonneg(s.skip(i + 1));
}

/// A sum of samples is never negative.
pub proof fn lemma_sum_nonneg(s: Seq<u16>)
    ensures
        0 <= seq_sum(s),
    decreases s.len(),
{
    if s.len() > 0 {
        lemma_sum_nonneg(s.drop_last());
    }
}

/// A sum of samples is at most the length times the largest sample value.
pub proof fn lemma_sum_bound(s: Seq<u16>)
    ensures
        seq_sum(s) <= s.len() * 65535,
    decreases s.len(),
{
    if s.len() > 0 {
        lemma_sum_bound(s.drop_last());
    }
}

/// A sequence of zeros sums to zero.
pub proof fn lemma_sum_zeros(s: Seq<u16>)
    requires
        forall|k: int| 0 <= k < s.len() ==> s[k] == 0,
    ensures
        seq_sum(s) == 0,
    decreases s.len(),
{
    if s.len() > 0 {
        lemma_sum_zeros(s.drop_last());
    }
}

/// Moving-average filter over the last `N` samples.
///
/// Until `N` samples have arrived the mean is taken over the samples received
/// so far (no artificial warm-up at zero).
pub struct SmoothFilter<const N: usize> {
    buf: [u16; N],
    idx: usize,
    sum: u32,
    filled: bool,
}

impl<const N: usize> View for SmoothFilter<N> {
    /// The samples in the window, oldest first.
    type V = Seq<u16>;

    closed spec fn view(&self) -> Seq<u16> {
        ring_window(self.buf@, self.idx as int, self.filled)
    }
}

/// A ring buffer whose unwritten slots hold zero has the sum of its window, and
/// a window as long as the buffer once filled, else as the slots written.
proof fn lemma_ring_window_sum(buf: Seq<u16>, idx: int, filled: bool)
    requires
        0 <= idx < buf.len(),
        !filled ==> forall|k: int| idx <= k < buf.len() ==> buf[k] == 0,
    ensures
        seq_sum(ring_window(buf, idx, filled)) == seq_sum(buf),
        ring_window(buf, idx, filled).len() == (if filled { buf.len() as int } else { idx }),
{
    assert(buf =~= buf.take(idx) + buf.skip(idx));
    lemma_sum_concat(buf.take(idx), buf.skip(idx));
    if filled {
        lemma_sum_concat(buf.skip(idx), buf.take(idx));
    } else {
        lemma_sum_zeros(buf.skip(idx));
    }
}

impl<const N: usize> SmoothFilter<N> {
    /// The capacity is supported, the write position stays in the buffer, the
    /// running sum is the sum of the buffer, and until the buffer is full the
    /// slots not yet written hold zero.
    pub closed spec fn wf(&self) -> bool {
        &&& valid_capacity(N)
        &&& self.buf@.len() == N
        &&& self.idx < N
        &&& self.sum == seq_sum(self.buf@)
        &&& !self.filled ==> forall|k: int| self.idx <= k < N ==> self.buf@[k] == 0
    }

    /// Creates an empty filter: all the internal samples are zero.
    pub fn new() -> (s: Self)
        ensures
            valid_capacity(N) ==> s.wf(),
            s@ == Seq::<u16>::empty(),
    {
        let s = SmoothFilter { buf: [0u16; N], idx: 0, sum: 0, filled: false };
        proof {
            assert(s@ =~= Seq::<u16>::empty());
            lemma_sum_zeros(s.buf@);
        }
        s
    }

    /// Feeds a sample and returns the mean of the window that now ends with
    /// it, rounded down. The running sum is a `u32`: the new window's sum must
    /// fit in it.
    pub fn feed(&mut self, sample: u16) -> (r: u16)
        requires
            old(self).wf(),
            seq_sum(slide_n(old(self)@, sample, N as nat)) <= u32::MAX,
        ensures
            final(self).wf(),
            final(self)@ == slide_n(old(self)@, sample, N as nat),
            0 < final(self)@.len() <= N,
            r == mean_spec(final(self)@),
    {
        let ghost w0 = self@;
        let ghost b0 = self.buf@;
        let ghost i0 = self.idx as int;
        let ghost b1 = b0.update(i0, sample);
        let ghost i1: int = if i0 + 1 >= N { 0 } else { i0 + 1 };
        let ghost f1: bool = self.filled || i0 + 1 >= N;
        proof {
            lemma_ring_window_sum(b0, i0, self.filled);
            lemma_sum_update(b0, i0, sample);
            if self.filled {
                if i0 + 1 < N {
                    assert(b1.skip(i0 + 1) + b1.take(i0 + 1) =~= w0.drop_first().push(sample));
                } else {
                    assert(b1.skip(0) + b1.take(0) =~= w0.drop_first().push(sample));
                }
            } else {
                assert(b1.take(i0 + 1) =~= b0.take(i0).push(sample));
                if i0 + 1 == N {
                    assert(b1.skip(0) + b1.take(0) =~= b1.take(i0 + 1));
                }
            }
            assert(ring_window(b1, i1, f1) =~= slide_n(w0, sample, N as nat));
            lemma_ring_window_sum(b1, i1, f1);
        }
        // take out the sample that leaves the buffer, put in the new one
        self.sum = self.sum.saturating_sub(self.buf[self.idx] as u32);
        self.buf[self.idx] = sample;
        self.sum += sample as u32;

        self.idx += 1;
        if self.idx >= N {
            self.idx = 0;
            self.filled = true;
        }
        proof {
            assert(self.buf@ =~= b1);
            assert(self@ == ring_window(b1, i1, f1));
            lemma_sum_bound(self@);
            vstd::arithmetic::div_mod::lemma_div_is_ordered(
                self.sum as int,
                self@.len() as int * 65535,
                self@.len() as int,
            );
            vstd::arithmetic::div_mod::lemma_div_multiples_vanish(65535, self@.len() as int);
            assert(self@.len() * 65535 == self@.len() as int * 65535);
        }
        let count: u32 = (if self.filled {
            N
        } else {
            self.idx
        }) as u32;
        (self.sum / count) as u16
    }

    /// Empties the filter.
    pub fn reset(&mut self)
        ensures
            valid_capacity(N) ==> final(self).wf(),
            final(self)@ == Seq::<u16>::empty(),
    {
        self.buf = [0u16; N];
        self.idx = 0;
        self.sum = 0;
        self.filled = false;
        proof {
            assert(self@ =~= Seq::<u16>::empty());
            lemma_sum_zeros(self.buf@);
        }
    }
}

/// A window of at most `cap` samples, with `cap * 65535 <= u32::MAX` (up to
/// 65537 samples), can always take one more sample within the `u32` sum.
pub proof fn lemma_slide_sum_fits(w: Seq<u16>, x: u16, cap: nat)
    requires
        w.len() <= cap,
        0 < cap,
        cap * 65535 <= u32::MAX,
    ensures
        seq_sum(slide_n(w, x, cap)) <= u32::MAX,
{
    lemma_sum_bound(slide_n(w, x, cap));
    vstd::arithmetic::mul::lemma_mul_inequality(slide_n(w, x, cap).len() as int, cap as int, 65535);
}

/// What successive calls of `feed` return on the samples `xs`, starting from
/// window `w`.
pub open spec fn smooth_run(w: Seq<u16>, xs: Seq<u16>, cap: nat) -> Seq<int> {
    Seq::new(xs.len(), |k: int| mean_spec(window_after(w, xs.take(k + 1), cap)))
}

/// From a filter just built or reset (an empty window), the `k`-th call of
/// `feed` returns the mean, rounded down, of the last `N` samples fed, or of
/// all of them while fewer than `N` were fed; in particular the first call
/// returns its sample.
pub proof fn lemma_smooth_history(xs: Seq<u16>, cap: nat)
    requires
        cap > 0,
    ensures
        smooth_run(Seq::empty(), xs, cap).len() == xs.len(),
        forall|k: int|
            0 <= k < xs.len() ==> #[trigger] smooth_run(Seq::empty(), xs, cap)[k] == mean_spec(
                recent(xs.take(k + 1), cap),
            ),
        xs.len() > 0 ==> smooth_run(Seq::empty(), xs, cap)[0] == xs[0],
{
    assert forall|k: int| 0 <= k < xs.len() implies #[trigger] smooth_run(Seq::empty(), xs, cap)[k]
        == mean_spec(recent(xs.take(k + 1), cap)) by {
        lemma_window_from_empty(xs.take(k + 1), cap);
    }
    if xs.len() > 0 {
        lemma_window_from_empty(xs.take(1), cap);
        assert(xs.take(1).drop_last() =~= Seq::<u16>::empty());
        assert(seq_sum(Seq::<u16>::empty()) == 0);
        assert(seq_sum(xs.take(1)) == xs[0]);
        assert(recent(xs.take(1), cap) == xs.take(1));
        assert(mean_spec(xs.take(1)) == xs[0]);
        assert(smooth_run(Seq::empty(), xs, cap)[0] == mean_spec(recent(xs.take(1), cap)));
    }
}

impl<const N: usize> Default for SmoothFilter<N> {
    /// An empty filter, as `new`.
    fn default() -> (s: Self)
        ensures
            valid_capacity(N) ==> s.wf(),
            s@ == Seq::<u16>::empty(),
    {
        Self::new()
    }
}

} // verus!
