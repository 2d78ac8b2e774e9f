//! Exponential moving average filter in Q8 fixed point:
//! `output = alpha * input + (1 - alpha) * previous_output`, with
//! `alpha = alpha_q8 / 256`, so that no floating point is needed. The top
//! coefficient 255 stands for a full weight (no smoothing: output = input).

use vstd::prelude::*;

verus! {

use vstd::arithmetic::div_mod::{lemma_div_is_ordered, lemma_div_multiples_vanish};

/// Largest value of the accumulator: the largest sample in Q8.
pub const ACC_MAX: u32 = 65535 * 256;

/// The default smoothing coefficient in Q8: 32 / 256 = 0.125, a strong
/// smoothing suited to low-frequency audio.
pub const DEFAULT_ALPHA_Q8: u16 = 32;

/// The weight in 256ths that the input gets for a coefficient `alpha_q8`:
/// the coefficient itself, except that 255 and above give the full weight.
pub open spec fn ema_weight(alpha_q8: int) -> int {
    if alpha_q8 >= 255 {
        256
    } else {
        alpha_q8
    }
}

/// The next Q8 accumulator: the blend of the input (in Q8) with weight
/// `w / 256` and of the accumulator with weight `(256 - w) / 256`, where
/// `w = ema_weight(alpha_q8)`, rounded down.
pub open spec fn ema_step(alpha_q8: int, acc: int, input: int) -> int {
    let w = ema_weight(alpha_q8);
    (w * (input * 256) + (256 - w) * acc) / 256
}

/// A Q8 value rounded to the nearest integer (halves up).
pub open spec fn q8_round(acc: int) -> int {
    (acc + 128) / 256
}

/// The smaller of two integers.
pub open spec fn min_int(a: int, b: int) -> int {
    if a <= b { a } else { b }
}

/// The larger of two integers.
pub open spec fn max_int(a: int, b: int) -> int {
    if a >= b { a } else { b }
}

/// A blend with weights `a` and `256 - a` lies between 256 times the smaller
/// and 256 times the larger of the blended values.
proof fn lemma_blend_bounds(a: int, x: int, y: int)
    requires
        0 <= a <= 256,
        0 <= x,
        0 <= y,
    ensures
        min_int(x, y) * 256 <= a * x + (256 - a) * y <= max_int(x, y) * 256,
{
    let lo = min_int(x, y);
    let hi = max_int(x, y);
    assert(lo * 256 <= a * x + (256 - a) * y <= hi * 256) by (nonlinear_arith)
        requires
            0 <= a <= 256,
            lo <= x <= hi,
            lo <= y <= hi,
    ;
}

/// The blended accumulator stays between the accumulator and the input in Q8.
proof fn lemma_step_between(alpha_q8: int, acc: int, input: int)
    requires
        0 <= alpha_q8 <= 256,
        0 <= acc,
        0 <= input,
    ensures
        min_int(acc, input * 256) <= ema_step(alpha_q8, acc, input) <= max_int(acc, input * 256),
{
    let x = input * 256;
    let lo = min_int(x, acc);
    let hi = max_int(x, acc);
    let w = ema_weight(alpha_q8);
    lemma_blend_bounds(w, x, acc);
    let blend = w * x + (256 - w) * acc;
    lemma_div_is_ordered(lo * 256, blend, 256);
    lemma_div_is_ordered(blend, hi * 256, 256);
    lemma_div_multiples_vanish(lo, 256);
    lemma_div_multiples_vanish(hi, 256);
    assert(lo * 256 == 256 * lo);
    assert(hi * 256 == 256 * hi);
}

/// EMA filter in Q8 fixed point.
pub struct EmaFilter {
    /// Coefficient in Q8: `alpha = alpha_q8 / 256`.
    alpha_q8: u16,
    /// Q8 accumulator (filtered value times 256).
    acc: u32,
    /// Whether a sample has been received since creation or reset.
    initialized: bool,
}

impl EmaFilter {
    /// The coefficient in Q8.
    pub closed spec fn alpha_q8(&self) -> u16 {
        self.alpha_q8
    }

    /// The filtered value in Q8.
    pub closed spec fn acc(&self) -> u32 {
        self.acc
    }

    /// Whether a sample has been received since creation or reset.
    pub closed spec fn initialized(&self) -> bool {
        self.initialized
    }

    /// The accumulator after `input` arrives: the input in Q8 for the first
    /// sample, else one blending step.
    pub open spec fn next_acc(&self, input: u16) -> int {
        if self.initialized() {
            ema_step(self.alpha_q8() as int, self.acc() as int, input as int)
        } else {
            input as int * 256
        }
    }

    /// The output after `input` arrives.
    pub open spec fn next_output(&self, input: u16) -> int {
        q8_round(self.next_acc(input))
    }

    /// The coefficient is at most 1 (256 in Q8) and the accumulator holds a
    /// sample value in Q8.
    pub open spec fn wf(&self) -> bool {
        &&& self.alpha_q8() <= 256
        &&& self.acc() <= ACC_MAX
    }

    /// Creates an EMA filter with the default coefficient (32 / 256 = 0.125).
    pub fn new() -> (s: Self)
        ensures
            s.wf(),
            s.alpha_q8() == DEFAULT_ALPHA_Q8,
            s.acc() == 0,
            !s.initialized(),
    {
        EmaFilter { alpha_q8: DEFAULT_ALPHA_Q8, acc: 0, initialized: false }
    }

    /// Creates an EMA filter with the coefficient `alpha_q8 / 256`, in
    /// `[1, 255]`: 255 applies no smoothing (output = input), 1 gives the
    /// slowest response. 0 freezes the first sample; 256 is taken as 255.
    pub fn with_alpha(alpha_q8: u16) -> (s: Self)
        requires
            alpha_q8 <= 256,
        ensures
            s.wf(),
            s.alpha_q8() == alpha_q8,
            s.acc() == 0,
            !s.initialized(),
    {
        EmaFilter { alpha_q8, acc: 0, initialized: false }
    }

    /// Feeds a sample and returns the filtered value, rounded to the nearest
    /// integer. The first sample after creation or reset is taken as it is.
    pub fn update(&mut self, input: u16) -> (r: u16)
        requires
            old(self).wf(),
        ensures
            final(self).wf(),
            final(self).alpha_q8() == old(self).alpha_q8(),
            final(self).initialized(),
            final(self).acc() == old(self).next_acc(input),
            !old(self).initialized() ==> final(self).acc() == input as int * 256,
            r == q8_round(final(self).acc() as int),
            // the first sample passes through unchanged
            !old(self).initialized() ==> r == input,
            // the top coefficient applies no smoothing
            old(self).alpha_q8() >= 255 ==> r == input,
            // the filtered value moves toward the input and never overshoots it
            old(self).initialized() ==> min_int(old(self).acc() as int, input as int * 256)
                <= final(self).acc() <= max_int(old(self).acc() as int, input as int * 256),
    {
        let input_q8: u32 = input as u32 * 256;
        if !self.initialized {
            self.acc = input_q8;
            self.initialized = true;
        } else {
            // weight of the input in 256ths: 255 stands for the full weight
            let alpha: u32 = if self.alpha_q8 >= 255 {
                256
            } else {
                self.alpha_q8 as u32
            };
            proof {
                lemma_blend_bounds(alpha as int, input_q8 as int, self.acc as int);
                lemma_step_between(self.alpha_q8 as int, self.acc as int, input as int);
            }
            // alpha * input + (256 - alpha) * acc, all in Q8 * Q8 = Q16, back to Q8
            self.acc = (alpha * input_q8 + (256 - alpha) * self.acc) / 256;
            proof {
                if self.alpha_q8 >= 255 {
                    lemma_full_alpha_passes_through(old(self).alpha_q8 as int, old(self).acc as int, input);
                }
            }
        }
        proof {
            lemma_div_is_ordered(self.acc + 128, ACC_MAX + 128, 256);
        }
        ((self.acc + 128) / 256) as u16
    }

    /// Resets the filter: the next sample is taken as it is.
    pub fn reset(&mut self)
        requires
            old(self).wf(),
        ensures
            final(self).wf(),
            final(self).alpha_q8() == old(self).alpha_q8(),
            final(self).acc() == 0,
            !final(self).initialized(),
    {
        self.initialized = false;
        self.acc = 0;
    }
}

impl Default for EmaFilter {
    /// An EMA filter with the default coefficient, as `new`.
    fn default() -> (s: Self)
        ensures
            s.wf(),
            s.alpha_q8() == DEFAULT_ALPHA_Q8,
            s.acc() == 0,
            !s.initialized(),
    {
        Self::new()
    }
}

/// The accumulator and the initialized flag after feeding the samples `xs`
/// in order to a filter with coefficient `alpha_q8`, accumulator `acc` and
/// flag `initialized`: each call of `update` is one step.
pub open spec fn ema_after(alpha_q8: u16, acc: int, initialized: bool, xs: Seq<u16>) -> (int, bool)
    decreases xs.len(),
{
    if xs.len() == 0 {
        (acc, initialized)
    } else {
        let prev = ema_after(alpha_q8, acc, initialized, xs.drop_last());
        (
            if prev.1 {
                ema_step(alpha_q8 as int, prev.0, xs.last() as int)
            } else {
                xs.last() as int * 256
            },
            true,
        )
    }
}

/// What successive calls of `update` return on the samples `xs`, from a
/// filter with coefficient `alpha_q8`, accumulator `acc` and flag
/// `initialized`.
pub open spec fn ema_run(alpha_q8: u16, acc: int, initialized: bool, xs: Seq<u16>) -> Seq<int> {
    Seq::new(xs.len(), |k: int| q8_round(ema_after(alpha_q8, acc, initialized, xs.take(k + 1)).0))
}

/// One call of `update` is one step of `ema_after`: the state it leaves and
/// what it returns are those of the run extended by its sample.
pub proof fn lemma_ema_after_push(f: EmaFilter, xs: Seq<u16>, x: u16)
    ensures
        ema_after(f.alpha_q8(), f.acc() as int, f.initialized(), seq![x]) == (f.next_acc(x), true),
        ema_after(f.alpha_q8(), f.acc() as int, f.initialized(), xs.push(x)).0 == ({
            let prev = ema_after(f.alpha_q8(), f.acc() as int, f.initialized(), xs);
            if prev.1 {
                ema_step(f.alpha_q8() as int, prev.0, x as int)
            } else {
                x as int * 256
            }
        }),
{
    assert(seq![x].drop_last() =~= Seq::<u16>::empty());
    assert(ema_after(f.alpha_q8(), f.acc() as int, f.initialized(), Seq::<u16>::empty()) == (
        f.acc() as int,
        f.initialized(),
    ));
    assert(xs.push(x).drop_last() =~= xs);
}

/// From a filter just built or reset with coefficient `alpha_q8`, the `k`-th
/// call of `update` returns the rounded accumulator `A_k`, where
/// `A_0 = 256 * x_0` and `A_k = (w * 256 * x_k + (256 - w) * A_(k-1)) / 256`
/// with `w = ema_weight(alpha_q8)` (the coefficient, 256 for 255 and above);
/// in particular the first call returns its sample.
pub proof fn lemma_ema_history(alpha_q8: u16, xs: Seq<u16>)
    ensures
        ema_run(alpha_q8, 0, false, xs).len() == xs.len(),
        forall|k: int|
            0 <= k < xs.len() ==> #[trigger] ema_run(alpha_q8, 0, false, xs)[k] == q8_round(
                ema_after(alpha_q8, 0, false, xs.take(k + 1)).0,
            ),
        xs.len() > 0 ==> ema_after(alpha_q8, 0, false, xs.take(1)).0 == xs[0] * 256,
        xs.len() > 0 ==> ema_run(alpha_q8, 0, false, xs)[0] == xs[0],
        forall|k: int|
            0 < k < xs.len() ==> #[trigger] ema_after(alpha_q8, 0, false, xs.take(k + 1)).0
                == ema_step(alpha_q8 as int, ema_after(alpha_q8, 0, false, xs.take(k)).0, xs[k] as int),
{
    assert forall|k: int| 0 < k < xs.len() implies #[trigger] ema_after(
        alpha_q8,
        0,
        false,
        xs.take(k + 1),
    ).0 == ema_step(alpha_q8 as int, ema_after(alpha_q8, 0, false, xs.take(k)).0, xs[k] as int) by {
        assert(xs.take(k + 1).drop_last() =~= xs.take(k));
        lemma_ema_initialized_after(alpha_q8, 0, false, xs.take(k));
    }
    if xs.len() > 0 {
        assert(xs.take(1).drop_last() =~= Seq::<u16>::empty());
        assert(ema_after(alpha_q8, 0, false, Seq::<u16>::empty()) == (0int, false));
        assert(xs.take(1).last() == xs[0]);
        assert(ema_after(alpha_q8, 0, false, xs.take(1)).0 == xs[0] * 256);
        lemma_constant_input_fixed_point(0, xs[0]);
    }
}

/// After at least one sample the filter is initialized.
proof fn lemma_ema_initialized_after(alpha_q8: u16, acc: int, initialized: bool, xs: Seq<u16>)
    requires
        xs.len() > 0,
    ensures
        ema_after(alpha_q8, acc, initialized, xs).1,
{
}

/// A filter that has not received a sample since it was built or reset runs
/// the same whatever its stale accumulator: a reset filter behaves, on every
/// sequence of samples, as a fresh one with the same coefficient.
pub proof fn lemma_ema_reset_is_fresh(alpha_q8: u16, acc: int, xs: Seq<u16>)
    ensures
        ema_run(alpha_q8, acc, false, xs) == ema_run(alpha_q8, 0, false, xs),
{
    assert forall|k: int| 0 <= k < xs.len() implies #[trigger] ema_after(
        alpha_q8,
        acc,
        false,
        xs.take(k + 1),
    ) == ema_after(alpha_q8, 0, false, xs.take(k + 1)) by {
        lemma_ema_stale_acc(alpha_q8, acc, xs.take(k + 1));
    }
    assert(ema_run(alpha_q8, acc, false, xs) =~= ema_run(alpha_q8, 0, false, xs));
}

/// From an uninitialized state, the state after a non-empty run does not
/// depend on the accumulator.
proof fn lemma_ema_stale_acc(alpha_q8: u16, acc: int, xs: Seq<u16>)
    requires
        xs.len() > 0,
    ensures
        ema_after(alpha_q8, acc, false, xs) == ema_after(alpha_q8, 0, false, xs),
    decreases xs.len(),
{
    if xs.len() > 1 {
        lemma_ema_stale_acc(alpha_q8, acc, xs.drop_last());
    } else {
        assert(xs.drop_last() =~= Seq::<u16>::empty());
        assert(ema_after(alpha_q8, acc, false, Seq::<u16>::empty()) == (acc, false));
        assert(ema_after(alpha_q8, 0, false, Seq::<u16>::empty()) == (0int, false));
    }
}

/// `new` is `with_alpha` of the default coefficient 32 (0.125): both give a
/// filter with that coefficient, a zero accumulator and no sample, so they
/// return the same on every sequence of samples.
pub proof fn lemma_new_is_default_alpha(xs: Seq<u16>)
    ensures
        DEFAULT_ALPHA_Q8 == 32,
        ema_run(DEFAULT_ALPHA_Q8, 0, false, xs) == ema_run(32, 0, false, xs),
{
}

/// With the top coefficient 255 (or 256) the filter applies no smoothing:
/// every step sets the accumulator to the input, and the output is the input.
pub proof fn lemma_full_alpha_passes_through(alpha_q8: int, acc: int, input: u16)
    requires
        255 <= alpha_q8 <= 256,
    ensures
        ema_step(alpha_q8, acc, input as int) == input as int * 256,
        q8_round(input as int * 256) == input,
{
    assert(ema_weight(alpha_q8) == 256);
    assert(256 * (input as int * 256) + 0 * acc == 256 * (input as int * 256));
    lemma_div_multiples_vanish(input as int * 256, 256);
}

/// What one blending step computes, in terms of its inputs alone: with a
/// coefficient below 255 the new accumulator `n` is the weighted blend
/// `alpha * (256 * input) + (256 - alpha) * acc` divided by 256 and rounded
/// down (`n * 256 <= blend < (n + 1) * 256`), with the same weight `alpha`
/// whether the input lies above or below the accumulator; with 255 or 256 it is
/// the input in Q8.
pub proof fn lemma_ema_step_blend(alpha_q8: u16, acc: int, input: u16)
    requires
        alpha_q8 <= 256,
        0 <= acc,
    ensures
        alpha_q8 < 255 ==> ema_step(alpha_q8 as int, acc, input as int) * 256 <= alpha_q8 * (256
            * input) + (256 - alpha_q8) * acc,
        alpha_q8 < 255 ==> alpha_q8 * (256 * input) + (256 - alpha_q8) * acc < (ema_step(
            alpha_q8 as int,
            acc,
            input as int,
        ) + 1) * 256,
        alpha_q8 >= 255 ==> ema_step(alpha_q8 as int, acc, input as int) == 256 * input,
{
    if alpha_q8 < 255 {
        let blend = alpha_q8 * (256 * input) + (256 - alpha_q8) * acc;
        assert(0 <= blend) by (nonlinear_arith)
            requires
                0 <= alpha_q8 < 255,
                0 <= acc,
                0 <= input,
                blend == alpha_q8 * (256 * input) + (256 - alpha_q8) * acc,
        ;
        assert(blend == alpha_q8 * (input * 256) + (256 - alpha_q8) * acc) by (nonlinear_arith)
            requires
                blend == alpha_q8 * (256 * input) + (256 - alpha_q8) * acc,
        ;
        crate::mapping::lemma_floor_div(blend, 256);
    } else {
        lemma_full_alpha_passes_through(alpha_q8 as int, acc, input);
    }
}

/// Rises and falls are smoothed alike: stepping from the mirrored accumulator
/// (`ACC_MAX - acc`) toward the mirrored input (`65535 - input`) gives the
/// mirror of the step, up to one unit of rounding.
pub proof fn lemma_ema_step_symmetric(alpha_q8: u16, acc: int, input: u16)
    requires
        alpha_q8 <= 256,
        0 <= acc <= ACC_MAX,
    ensures
        ACC_MAX - 1 <= ema_step(alpha_q8 as int, acc, input as int) + ema_step(
            alpha_q8 as int,
            ACC_MAX - acc,
            65535 - input,
        ) <= ACC_MAX,
{
    let w = ema_weight(alpha_q8 as int);
    let a = w * (input * 256) + (256 - w) * acc;
    let b = w * ((65535 - input) * 256) + (256 - w) * (ACC_MAX - acc);
    assert(a + b == 256 * ACC_MAX) by (nonlinear_arith)
        requires
            a == w * (input * 256) + (256 - w) * acc,
            b == w * ((65535 - input) * 256) + (256 - w) * (ACC_MAX - acc),
            ACC_MAX == 65535 * 256,
    ;
    assert(0 <= a && 0 <= b) by (nonlinear_arith)
        requires
            0 <= w <= 256,
            0 <= acc <= 65535 * 256,
            0 <= input <= 65535,
            a == w * (input * 256) + (256 - w) * acc,
            b == w * ((65535 - input) * 256) + (256 - w) * (65535 * 256 - acc),
    ;
    crate::mapping::lemma_floor_div(a, 256);
    crate::mapping::lemma_floor_div(b, 256);
}

/// What an `update` of an initialized filter returns, in terms of its state
/// and input alone: with a coefficient below 255 the new accumulator is the
/// blend of the input (weight `alpha`) and the old accumulator (weight
/// `256 - alpha`), divided by 256 and rounded down; with 255 or 256 it is the
/// input. The output `o` is the accumulator rounded to the nearest integer:
/// `o * 256 <= acc + 128 < (o + 1) * 256`.
pub proof fn lemma_update_of_initialized(f: EmaFilter, input: u16)
    requires
        f.wf(),
        f.initialized(),
    ensures
        f.alpha_q8() < 255 ==> f.next_acc(input) * 256 <= f.alpha_q8() * (256 * input) + (256
            - f.alpha_q8()) * f.acc() < (f.next_acc(input) + 1) * 256,
        f.alpha_q8() >= 255 ==> f.next_acc(input) == 256 * input,
        f.next_output(input) * 256 <= f.next_acc(input) + 128 < (f.next_output(input) + 1) * 256,
{
    lemma_ema_step_blend(f.alpha_q8(), f.acc() as int, input);
    lemma_step_between(f.alpha_q8() as int, f.acc() as int, input as int);
    crate::mapping::lemma_floor_div(f.next_acc(input) + 128, 256);
}

/// A constant input is a fixed point: once the accumulator holds the input in
/// Q8, feeding that input again leaves it there, whatever the coefficient.
pub proof fn lemma_constant_input_fixed_point(alpha_q8: int, input: u16)
    requires
        0 <= alpha_q8 <= 256,
    ensures
        ema_step(alpha_q8, input as int * 256, input as int) == input as int * 256,
        q8_round(input as int * 256) == input,
{
    lemma_step_between(alpha_q8, input as int * 256, input as int);
}

} // verus!
