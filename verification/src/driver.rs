//! The decisions of the MAX4466 driver, apart from the ADC reads and the
//! timing between them: calibration of the zero point, peak-to-peak amplitude
//! over an acquisition window, and the filters applied to a raw sample.

use vstd::prelude::*;

verus! {

use crate::filter_ema::EmaFilter;
use crate::filter_median::{median_spec, slide, MedianFilter};
use crate::filters::{lemma_sum_bound, lemma_sum_nonneg, seq_sum};

/// Zero point before calibration: mid-range of a 12-bit ADC (VCC / 2).
pub const DEFAULT_ZERO_POINT: u16 = 2048;

/// Number of readings a default calibration averages.
pub const CALIBRATION_SAMPLES: u32 = 128;

/// Readings per millisecond of acquisition window (one every 200 µs, ~5 kHz).
pub const SAMPLES_PER_MS: u32 = 5;

/// Largest ADC reading of a 12-bit converter.
pub const ADC_12BIT_MAX: u16 = 4095;

/// Number of readings taken over a window of `window_ms` milliseconds.
pub fn sample_count(window_ms: u32) -> (n: u32)
    requires
        window_ms * SAMPLES_PER_MS <= u32::MAX,
    ensures
        n == window_ms * SAMPLES_PER_MS,
{
    window_ms * SAMPLES_PER_MS
}

/// Running average of readings taken at rest, to find the DC offset.
pub struct Calibration {
    sum: u64,
    count: u32,
    samples: Ghost<Seq<u16>>,
}

impl View for Calibration {
    /// The readings received, in order.
    type V = Seq<u16>;

    closed spec fn view(&self) -> Seq<u16> {
        self.samples@
    }
}

impl Calibration {
    /// The running sum and count are those of the readings received.
    pub closed spec fn wf(&self) -> bool {
        &&& self.count == self.samples@.len()
        &&& self.sum == seq_sum(self.samples@)
    }

    /// Starts a calibration with no reading.
    pub fn new() -> (c: Self)
        ensures
            c.wf(),
            c@ == Seq::<u16>::empty(),
    {
        Calibration { sum: 0, count: 0, samples: Ghost(Seq::empty()) }
    }

    /// Adds a reading.
    pub fn add(&mut self, sample: u16)
        requires
            old(self).wf(),
            old(self)@.len() < u32::MAX,
        ensures
            final(self).wf(),
            final(self)@ == old(self)@.push(sample),
    {
        proof {
            lemma_sum_bound(self.samples@);
            assert(self.samples@.push(sample).drop_last() =~= self.samples@);
        }
        self.sum = self.sum + sample as u64;
        self.count = self.count + 1;
        self.samples = Ghost(self.samples@.push(sample));
    }

    /// The zero point: the mean of the readings, rounded down.
    pub fn zero_point(&self) -> (z: u16)
        requires
            self.wf(),
            self@.len() > 0,
        ensures
            z == seq_sum(self@) / (self@.len() as int),
    {
        proof {
            lemma_sum_bound(self.samples@);
            lemma_sum_nonneg(self.samples@);
            let n = self.samples@.len() as int;
            vstd::arithmetic::div_mod::lemma_div_is_ordered(self.sum as int, n * 65535, n);
            vstd::arithmetic::div_mod::lemma_div_multiples_vanish(65535, n);
            assert(n * 65535 == 65535 * n);
        }
        (self.sum / self.count as u64) as u16
    }
}

/// The extremes seen by a peak tracker.
pub struct PeakState {
    /// Smallest reading seen, or the starting value.
    pub lo: u16,
    /// Largest reading seen, or the starting value.
    pub hi: u16,
}

/// The extremes after one more reading.
pub open spec fn peak_step(s: PeakState, v: u16) -> PeakState {
    PeakState { lo: if v < s.lo { v } else { s.lo }, hi: if v > s.hi { v } else { s.hi } }
}

/// The extremes after the readings `s`, in order.
pub open spec fn peak_after(start: PeakState, s: Seq<u16>) -> PeakState
    decreases s.len(),
{
    if s.len() == 0 {
        start
    } else {
        peak_step(peak_after(start, s.drop_last()), s.last())
    }
}

/// Peak-to-peak amplitude of extremes: `hi - lo`, or 0 when `hi <= lo`.
pub open spec fn amplitude_spec(s: PeakState) -> int {
    if s.hi > s.lo {
        s.hi - s.lo
    } else {
        0
    }
}

/// Tracks the smallest and largest readings over an acquisition window.
pub struct PeakTracker {
    lo: u16,
    hi: u16,
}

impl View for PeakTracker {
    type V = PeakState;

    closed spec fn view(&self) -> PeakState {
        PeakState { lo: self.lo, hi: self.hi }
    }
}

impl PeakTracker {
    /// Starts a window over the whole `u16` range: the smallest extreme at the
    /// top of the range, the largest at the bottom.
    pub fn new() -> (t: Self)
        ensures
            t@ == (PeakState { lo: u16::MAX, hi: 0 }),
    {
        PeakTracker { lo: u16::MAX, hi: 0 }
    }

    /// Starts a window with the given extremes, such as `(4095, 0)` for a
    /// 12-bit converter.
    pub fn starting_at(lo: u16, hi: u16) -> (t: Self)
        ensures
            t@ == (PeakState { lo, hi }),
    {
        PeakTracker { lo, hi }
    }

    /// Takes a reading into account.
    pub fn observe(&mut self, v: u16)
        ensures
            final(self)@ == peak_step(old(self)@, v),
    {
        if v > self.hi {
            self.hi = v;
        }
        if v < self.lo {
            self.lo = v;
        }
    }

    /// Peak-to-peak amplitude: largest minus smallest, or 0.
    pub fn amplitude(&self) -> (a: u16)
        ensures
            a == amplitude_spec(self@),
    {
        if self.hi > self.lo {
            self.hi - self.lo
        } else {
            0
        }
    }
}

/// After a run of readings the extremes bound every reading and the starting
/// values, and each extreme is either its starting value or a reading.
pub proof fn lemma_peak_after_bounds(start: PeakState, s: Seq<u16>)
    ensures
        peak_after(start, s).lo <= start.lo,
        peak_after(start, s).hi >= start.hi,
        forall|i: int| 0 <= i < s.len() ==> peak_after(start, s).lo <= #[trigger] s[i] <= peak_after(start, s).hi,
        peak_after(start, s).lo == start.lo || s.contains(peak_after(start, s).lo),
        peak_after(start, s).hi == start.hi || s.contains(peak_after(start, s).hi),
    decreases s.len(),
{
    if s.len() > 0 {
        let prev = s.drop_last();
        lemma_peak_after_bounds(start, prev);
        assert forall|i: int| 0 <= i < s.len() implies peak_after(start, s).lo <= #[trigger] s[i]
            <= peak_after(start, s).hi by {
            if i < s.len() - 1 {
                assert(s[i] == prev[i]);
            }
        }
        if peak_after(start, prev).lo != start.lo && peak_after(start, s).lo == peak_after(start, prev).lo {
            let j = choose|j: int| 0 <= j < prev.len() && prev[j] == peak_after(start, prev).lo;
            assert(s[j] == prev[j]);
        }
        if peak_after(start, prev).hi != start.hi && peak_after(start, s).hi == peak_after(start, prev).hi {
            let j = choose|j: int| 0 <= j < prev.len() && prev[j] == peak_after(start, prev).hi;
            assert(s[j] == prev[j]);
        }
        assert(s[s.len() - 1] == s.last());
    }
}

/// From a fresh tracker, the amplitude over a non-empty window is exactly the
/// largest reading minus the smallest.
pub proof fn lemma_fresh_window_peak_to_peak(s: Seq<u16>)
    requires
        s.len() > 0,
    ensures
        ({
            let p = peak_after(PeakState { lo: u16::MAX, hi: 0 }, s);
            &&& s.contains(p.lo)
            &&& s.contains(p.hi)
            &&& forall|i: int| 0 <= i < s.len() ==> p.lo <= #[trigger] s[i] <= p.hi
            &&& amplitude_spec(p) == p.hi - p.lo
        }),
{
    let start = PeakState { lo: u16::MAX, hi: 0 };
    lemma_peak_after_bounds(start, s);
    let p = peak_after(start, s);
    assert(p.lo <= s[0] <= p.hi);
    if !s.contains(p.lo) {
        assert(p.lo == u16::MAX);
        assert(s[0] == u16::MAX);
        assert(s.contains(s[0]));
    }
    if !s.contains(p.hi) {
        assert(p.hi == 0);
        assert(s[0] == 0);
        assert(s.contains(s[0]));
    }
}

/// The filters applied to each raw reading: EMA first, then median, each when
/// present.
pub struct SignalChain {
    /// Exponential moving average, when enabled.
    pub ema: Option<EmaFilter>,
    /// Sliding-window median, when enabled.
    pub median: Option<MedianFilter>,
}

/// The value after the EMA stage, when there is one.
pub open spec fn ema_stage(ema: Option<EmaFilter>, raw: u16) -> int {
    match ema {
        Some(f) => f.next_output(raw),
        None => raw as int,
    }
}

impl SignalChain {
    /// Each filter present is well formed.
    pub open spec fn wf(&self) -> bool {
        &&& (self.ema matches Some(f) ==> f.wf())
        &&& (self.median matches Some(m) ==> m.wf())
    }

    /// A chain that applies no filter: the raw reading passes as it is.
    pub fn raw() -> (c: Self)
        ensures
            c.wf(),
            c.ema.is_none(),
            c.median.is_none(),
    {
        SignalChain { ema: None, median: None }
    }

    /// A chain with the chosen filters, each freshly created (the EMA with its
    /// default coefficient).
    pub fn with_filters(ema: bool, median: bool) -> (c: Self)
        ensures
            c.wf(),
            c.ema.is_some() == ema,
            c.median.is_some() == median,
            c.ema matches Some(f) ==> f.wf() && f.alpha_q8() == crate::filter_ema::DEFAULT_ALPHA_Q8
                && !f.initialized(),
            c.median matches Some(m) ==> m@ == Seq::<u16>::empty(),
    {
        SignalChain {
            ema: if ema {
                Some(EmaFilter::new())
            } else {
                None
            },
            median: if median {
                Some(MedianFilter::new())
            } else {
                None
            },
        }
    }

    /// Filters a raw reading: through the EMA filter when present, then through
    /// the median filter when present; with neither, the reading is returned
    /// as it is.
    pub fn process(&mut self, raw: u16) -> (r: u16)
        requires
            old(self).wf(),
        ensures
            final(self).wf(),
            final(self).ema.is_some() == old(self).ema.is_some(),
            final(self).median.is_some() == old(self).median.is_some(),
            ({
                let v = ema_stage(old(self).ema, raw);
                match old(self).median {
                    Some(m) => r == median_spec(slide(m@, v as u16)) && final(self).median.unwrap()@
                        == slide(m@, v as u16),
                    None => r == v,
                }
            }),
            old(self).ema matches Some(f) ==> {
                let g = final(self).ema.unwrap();
                &&& g.acc() == f.next_acc(raw)
                &&& g.alpha_q8() == f.alpha_q8()
                &&& g.initialized()
            },
    {
        let mut value: u16 = raw;
        match &mut self.ema {
            Some(f) => {
                value = f.update(value);
            },
            None => {},
        }
        match &mut self.median {
            Some(m) => {
                value = m.update(value);
            },
            None => {},
        }
        value
    }
}

} // verus!
