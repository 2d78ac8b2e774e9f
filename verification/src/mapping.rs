//! Mapping of ADC amplitudes onto other scales: a linear range, a percentage of
//! full scale and a coarse dBFS reading.

use vstd::prelude::*;

verus! {

use vstd::arithmetic::div_mod::{
    lemma_div_is_ordered,
    lemma_div_multiples_vanish,
    lemma_fundamental_div_mod,
    lemma_fundamental_div_mod_converse,
    lemma_mod_pos_bound,
};
use vstd::arithmetic::mul::{lemma_mul_inequality, lemma_mul_upper_bound};

/// `v` held inside `[lo, hi]`.
pub open spec fn clamp_spec(v: int, lo: int, hi: int) -> int {
    if v < lo {
        lo
    } else if v > hi {
        hi
    } else {
        v
    }
}

/// The offset `off` into an input span of `span_in`, scaled onto an output
/// span of `span_out` and rounded down.
pub open spec fn scaled(off: int, span_in: int, span_out: int) -> int {
    (off * span_out) / span_in
}

/// Linear remapping of `value` from `[in_min, in_max]` onto `[out_min, out_max]`,
/// the value first saturated into the input range and the distance from
/// `out_min` rounded down. The output range may run downward
/// (`out_min > out_max`). An empty input range maps everything onto `out_min`.
pub open spec fn map_range_spec(value: u16, in_min: u16, in_max: u16, out_min: u16, out_max: u16) -> int {
    if in_max == in_min {
        out_min as int
    } else {
        let off = clamp_spec(value as int, in_min as int, in_max as int) - in_min;
        let span_in = in_max - in_min;
        if out_min <= out_max {
            out_min + scaled(off, span_in, out_max - out_min)
        } else {
            out_min - scaled(off, span_in, out_min - out_max)
        }
    }
}

/// A scaled offset lies in `[0, span_out]`, reaches `span_out` at the end of
/// the input span, grows with the offset, and its product fits in `u32`.
proof fn lemma_scaled_bounds(off: int, off2: int, span_in: int, span_out: int)
    requires
        0 <= off <= off2 <= span_in,
        0 < span_in <= 0xffff,
        0 <= span_out <= 0xffff,
    ensures
        0 <= off * span_out <= 0xffff * 0xffff,
        0 <= scaled(off, span_in, span_out) <= scaled(off2, span_in, span_out) <= span_out,
        scaled(span_in, span_in, span_out) == span_out,
{
    lemma_mul_upper_bound(off, span_in, span_out, span_out);
    lemma_mul_upper_bound(span_in, 0xffff, span_out, 0xffff);
    lemma_mul_inequality(off, off2, span_out);
    lemma_mul_inequality(off2, span_in, span_out);
    lemma_mul_inequality(0, off, span_out);
    lemma_div_is_ordered(0, off * span_out, span_in);
    lemma_div_is_ordered(off * span_out, off2 * span_out, span_in);
    lemma_div_is_ordered(off2 * span_out, span_in * span_out, span_in);
    lemma_div_multiples_vanish(span_out, span_in);
    assert(span_in * span_out == span_out * span_in) by (nonlinear_arith);
}

/// Linear remapping of a value from `[in_min, in_max]` to `[out_min, out_max]`,
/// saturated into the output range, which may run downward (the `map()` of
/// Arduino, without extrapolation).
pub fn map_range(value: u16, in_min: u16, in_max: u16, out_min: u16, out_max: u16) -> (r: u16)
    requires
        in_min <= in_max,
    ensures
        r == map_range_spec(value, in_min, in_max, out_min, out_max),
        in_min != in_max && out_min <= out_max ==> out_min <= r <= out_max,
        in_min != in_max && out_min > out_max ==> out_max <= r <= out_min,
        in_min != in_max && value <= in_min ==> r == out_min,
        in_min != in_max && value >= in_max ==> r == out_max,
{
    if in_max == in_min {
        return out_min;
    }
    // saturate into the input range
    let value: u16 = if value < in_min {
        in_min
    } else if value > in_max {
        in_max
    } else {
        value
    };
    let span_in: u16 = in_max - in_min;
    let offset: u16 = value - in_min;
    if out_min <= out_max {
        let span_out: u16 = out_max - out_min;
        proof {
            lemma_scaled_bounds(offset as int, span_in as int, span_in as int, span_out as int);
        }
        let q: u32 = (offset as u32 * span_out as u32) / span_in as u32;
        out_min + q as u16
    } else {
        let span_out: u16 = out_min - out_max;
        proof {
            lemma_scaled_bounds(offset as int, span_in as int, span_in as int, span_out as int);
        }
        let q: u32 = (offset as u32 * span_out as u32) / span_in as u32;
        out_min - q as u16
    }
}

/// Remapping is monotone: a larger value never maps lower on an upward output
/// range, and never maps higher on a downward one.
pub proof fn lemma_map_range_monotone(
    v1: u16,
    v2: u16,
    in_min: u16,
    in_max: u16,
    out_min: u16,
    out_max: u16,
)
    requires
        in_min <= in_max,
        v1 <= v2,
    ensures
        out_min <= out_max ==> map_range_spec(v1, in_min, in_max, out_min, out_max)
            <= map_range_spec(v2, in_min, in_max, out_min, out_max),
        out_min > out_max ==> map_range_spec(v1, in_min, in_max, out_min, out_max)
            >= map_range_spec(v2, in_min, in_max, out_min, out_max),
{
    if in_max != in_min {
        let o1 = clamp_spec(v1 as int, in_min as int, in_max as int) - in_min;
        let o2 = clamp_spec(v2 as int, in_min as int, in_max as int) - in_min;
        let span_in = in_max - in_min;
        if out_min <= out_max {
            lemma_scaled_bounds(o1, o2, span_in, out_max - out_min);
        } else {
            lemma_scaled_bounds(o1, o2, span_in, out_min - out_max);
        }
    }
}

/// Rounded-down division: the quotient `q` of `x` by `d` is the one integer
/// with `q * d <= x < (q + 1) * d`.
pub(crate) proof fn lemma_floor_div(x: int, d: int)
    requires
        0 <= x,
        0 < d,
    ensures
        (x / d) * d <= x < (x / d) * d + d,
        (x / d) * d <= x < (x / d + 1) * d,
{
    lemma_fundamental_div_mod(x, d);
    lemma_mod_pos_bound(x, d);
    assert(d * (x / d) == (x / d) * d) by (nonlinear_arith);
    assert((x / d + 1) * d == (x / d) * d + d) by (nonlinear_arith);
}

/// What `map_range` computes, in terms of its inputs alone: with the value
/// saturated into `[in_min, in_max]` and `off` its distance from `in_min`,
/// the distance of the result from `out_min` (toward `out_max`) times the
/// input span is at most `off` times the output span, and one more step would
/// exceed it: the exact linear image, rounded toward `out_min`.
pub proof fn lemma_map_range_linear(v: u16, in_min: u16, in_max: u16, out_min: u16, out_max: u16)
    requires
        in_min < in_max,
    ensures
        ({
            let r = map_range_spec(v, in_min, in_max, out_min, out_max);
            let off: int = if v < in_min {
                0
            } else if v > in_max {
                in_max - in_min
            } else {
                v - in_min
            };
            let span_in: int = in_max - in_min;
            let span_out: int = if out_min <= out_max {
                out_max - out_min
            } else {
                out_min - out_max
            };
            let dist: int = if out_min <= out_max {
                r - out_min
            } else {
                out_min - r
            };
            &&& 0 <= dist <= span_out
            &&& dist * span_in <= off * span_out
            &&& off * span_out < (dist + 1) * span_in
        }),
{
    let off: int = if v < in_min {
        0
    } else if v > in_max {
        in_max - in_min
    } else {
        v - in_min
    };
    let span_in: int = in_max - in_min;
    let span_out: int = if out_min <= out_max {
        out_max - out_min
    } else {
        out_min - out_max
    };
    lemma_scaled_bounds(off, span_in, span_in, span_out);
    lemma_floor_div(off * span_out, span_in);
    assert(clamp_spec(v as int, in_min as int, in_max as int) - in_min == off);
    assert(scaled(off, span_in, span_out) == (off * span_out) / span_in);
}

/// Remapping commutes with a shift of the output range: mapping onto
/// `[out_min, out_max]` is mapping onto `[0, out_max - out_min]` and adding
/// `out_min`.
pub proof fn lemma_map_range_translate(v: u16, in_min: u16, in_max: u16, out_min: u16, out_max: u16)
    requires
        in_min <= in_max,
        out_min <= out_max,
    ensures
        map_range_spec(v, in_min, in_max, out_min, out_max) == out_min + map_range_spec(
            v,
            in_min,
            in_max,
            0,
            (out_max - out_min) as u16,
        ),
{
}

/// The percentage of full scale, capped at 100 (0 when the full scale is 0).
pub open spec fn percent_spec(amplitude: u16, adc_max: u16) -> int {
    if adc_max == 0 {
        0
    } else {
        let pct = (amplitude as int * 100) / (adc_max as int);
        if pct < 100 {
            pct
        } else {
            100
        }
    }
}

/// Converts an amplitude into a percentage of the ADC range, in `[0, 100]`.
pub fn to_percent(amplitude: u16, adc_max: u16) -> (r: u8)
    ensures
        r == percent_spec(amplitude, adc_max),
        r <= 100,
        adc_max > 0 && amplitude >= adc_max ==> r == 100,
{
    if adc_max == 0 {
        return 0;
    }
    let pct: u32 = (amplitude as u32 * 100) / adc_max as u32;
    proof {
        if amplitude >= adc_max {
            lemma_div_is_ordered(adc_max * 100, amplitude * 100, adc_max as int);
            lemma_div_multiples_vanish(100, adc_max as int);
        }
    }
    let capped: u32 = if pct < 100 {
        pct
    } else {
        100
    };
    capped as u8
}

/// What `to_percent` computes, in terms of its inputs alone: 100 exactly when
/// the amplitude reaches the full scale, else the `p` with
/// `p * adc_max <= 100 * amplitude < (p + 1) * adc_max`: the percentage of the
/// given full scale, rounded down.
pub proof fn lemma_percent_of_full_scale(amplitude: u16, adc_max: u16)
    requires
        adc_max > 0,
    ensures
        percent_spec(amplitude, adc_max) == 100 <==> amplitude >= adc_max,
        amplitude < adc_max ==> percent_spec(amplitude, adc_max) * adc_max <= 100 * amplitude
            < (percent_spec(amplitude, adc_max) + 1) * adc_max,
{
    let x = amplitude as int * 100;
    let m = adc_max as int;
    lemma_floor_div(x, m);
    if amplitude >= adc_max {
        lemma_div_is_ordered(m * 100, x, m);
        lemma_div_multiples_vanish(100, m);
        assert(m * 100 == 100 * m);
    } else {
        assert(x < 100 * m);
        assert((x / m) * m < 100 * m);
        assert(x / m < 100) by (nonlinear_arith)
            requires
                (x / m) * m < 100 * m,
                m > 0,
        ;
        assert(percent_spec(amplitude, adc_max) == x / m);
        assert(100 * amplitude == x);
    }
}

/// The percentage depends only on the ratio of amplitude to full scale:
/// scaling both by the same factor leaves it unchanged.
pub proof fn lemma_percent_scale_invariant(amplitude: u16, adc_max: u16, k: u16)
    requires
        adc_max > 0,
        k > 0,
        k * amplitude <= u16::MAX,
        k * adc_max <= u16::MAX,
    ensures
        percent_spec((k * amplitude) as u16, (k * adc_max) as u16) == percent_spec(amplitude, adc_max),
{
    let x = amplitude as int * 100;
    let m = adc_max as int;
    let q = x / m;
    lemma_floor_div(x, m);
    let ka = (k * amplitude) as u16;
    let km = (k * adc_max) as u16;
    assert(ka as int * 100 == k * x) by (nonlinear_arith)
        requires
            ka == k * amplitude,
            x == amplitude * 100,
    ;
    assert(q * (k * m) <= k * x < q * (k * m) + k * m) by (nonlinear_arith)
        requires
            q * m <= x < q * m + m,
            k > 0,
    ;
    lemma_fundamental_div_mod_converse(k * x, k * m, q, k * x - q * (k * m));
    assert(km as int == k * m);
}

/// The dBFS step of the lookup table for a ratio to full scale given in
/// thousandths: each row is the ratio at which `20 * log10(ratio)` reaches the
/// next multiple of 3 dB, rounded; below two thousandths the reading is -60.
pub open spec fn db_of_ratio(ratio_x1000: int) -> int {
    if ratio_x1000 >= 1000 {
        0
    } else if ratio_x1000 >= 708 {
        -3
    } else if ratio_x1000 >= 501 {
        -6
    } else if ratio_x1000 >= 355 {
        -9
    } else if ratio_x1000 >= 251 {
        -12
    } else if ratio_x1000 >= 178 {
        -15
    } else if ratio_x1000 >= 126 {
        -18
    } else if ratio_x1000 >= 89 {
        -21
    } else if ratio_x1000 >= 63 {
        -24
    } else if ratio_x1000 >= 45 {
        -27
    } else if ratio_x1000 >= 32 {
        -30
    } else if ratio_x1000 >= 22 {
        -33
    } else if ratio_x1000 >= 16 {
        -36
    } else if ratio_x1000 >= 11 {
        -39
    } else if ratio_x1000 >= 8 {
        -42
    } else if ratio_x1000 >= 6 {
        -45
    } else if ratio_x1000 >= 4 {
        -48
    } else if ratio_x1000 >= 3 {
        -51
    } else if ratio_x1000 >= 2 {
        -54
    } else {
        -60
    }
}

/// The dBFS reading of an amplitude: -96 for digital silence (or an empty
/// full scale), else the table step of the ratio to full scale in thousandths.
pub open spec fn db_spec(amplitude: u16, adc_max: u16) -> int {
    if amplitude == 0 || adc_max == 0 {
        -96
    } else {
        db_of_ratio((amplitude as int * 1000) / (adc_max as int))
    }
}

/// Converts an amplitude into relative decibels (dBFS), in `[-96, 0]`, with an
/// integer approximation of `20 * log10(amplitude / adc_max)`.
pub fn to_db(amplitude: u16, adc_max: u16) -> (r: i8)
    ensures
        r == db_spec(amplitude, adc_max),
        -96 <= r <= 0,
        r == -96 <==> (amplitude == 0 || adc_max == 0),
{
    if amplitude == 0 || adc_max == 0 {
        return -96;
    }
    let ratio_x1000: u32 = (amplitude as u32 * 1000) / adc_max as u32;

    let db: i16 = if ratio_x1000 >= 1000 {
        0
    } else if ratio_x1000 >= 708 {
        -3
    } else if ratio_x1000 >= 501 {
        -6
    } else if ratio_x1000 >= 355 {
        -9
    } else if ratio_x1000 >= 251 {
        -12
    } else if ratio_x1000 >= 178 {
        -15
    } else if ratio_x1000 >= 126 {
        -18
    } else if ratio_x1000 >= 89 {
        -21
    } else if ratio_x1000 >= 63 {
        -24
    } else if ratio_x1000 >= 45 {
        -27
    } else if ratio_x1000 >= 32 {
        -30
    } else if ratio_x1000 >= 22 {
        -33
    } else if ratio_x1000 >= 16 {
        -36
    } else if ratio_x1000 >= 11 {
        -39
    } else if ratio_x1000 >= 8 {
        -42
    } else if ratio_x1000 >= 6 {
        -45
    } else if ratio_x1000 >= 4 {
        -48
    } else if ratio_x1000 >= 3 {
        -51
    } else if ratio_x1000 >= 2 {
        -54
    } else {
        -60
    };

    db as i8
}

/// The rows of the dBFS table: the ratio to full scale in thousandths at which
/// each reading starts, and the reading, in 3 dB steps. Each ratio is
/// `1000 * 10^(reading / 20)`, rounded.
pub open spec fn db_rows() -> Seq<(int, int)> {
    seq![
        (1000, 0),
        (708, -3),
        (501, -6),
        (355, -9),
        (251, -12),
        (178, -15),
        (126, -18),
        (89, -21),
        (63, -24),
        (45, -27),
        (32, -30),
        (22, -33),
        (16, -36),
        (11, -39),
        (8, -42),
        (6, -45),
        (4, -48),
        (3, -51),
        (2, -54),
    ]
}

/// What `to_db` reads for a sound, in terms of its inputs alone: with
/// `ratio = amplitude * 1000 / adc_max`, the reading of the table row whose
/// ratio is reached and the previous row's is not, or -60 below the last row.
pub proof fn lemma_to_db_table(amplitude: u16, adc_max: u16)
    requires
        amplitude > 0,
        adc_max > 0,
    ensures
        ({
            let ratio = (amplitude as int * 1000) / (adc_max as int);
            let rows = db_rows();
            &&& rows.len() == 19
            &&& forall|i: int|
                0 <= i < rows.len() && rows[i].0 <= ratio && (i == 0 || ratio < rows[i - 1].0)
                    ==> db_spec(amplitude, adc_max) == #[trigger] rows[i].1
            &&& ratio < rows[18].0 ==> db_spec(amplitude, adc_max) == -60
        }),
{
    let ratio = (amplitude as int * 1000) / (adc_max as int);
    let rows = db_rows();
    assert forall|i: int|
        0 <= i < rows.len() && rows[i].0 <= ratio && (i == 0 || ratio < rows[i - 1].0) implies db_spec(
            amplitude,
            adc_max,
        ) == #[trigger] rows[i].1 by {
        if i == 0 {
            assert(rows[0] == (1000int, 0int));
        } else if i == 1 {
            assert(rows[1] == (708int, -3int));
            assert(rows[0] == (1000int, 0int));
        } else if i == 2 {
            assert(rows[2] == (501int, -6int));
            assert(rows[1] == (708int, -3int));
        } else if i == 3 {
            assert(rows[3] == (355int, -9int));
            assert(rows[2] == (501int, -6int));
        } else if i == 4 {
            assert(rows[4] == (251int, -12int));
            assert(rows[3] == (355int, -9int));
        } else if i == 5 {
            assert(rows[5] == (178int, -15int));
            assert(rows[4] == (251int, -12int));
        } else if i == 6 {
            assert(rows[6] == (126int, -18int));
            assert(rows[5] == (178int, -15int));
        } else if i == 7 {
            assert(rows[7] == (89int, -21int));
            assert(rows[6] == (126int, -18int));
        } else if i == 8 {
            assert(rows[8] == (63int, -24int));
            assert(rows[7] == (89int, -21int));
        } else if i == 9 {
            assert(rows[9] == (45int, -27int));
            assert(rows[8] == (63int, -24int));
        } else if i == 10 {
            assert(rows[10] == (32int, -30int));
            assert(rows[9] == (45int, -27int));
        } else if i == 11 {
            assert(rows[11] == (22int, -33int));
            assert(rows[10] == (32int, -30int));
        } else if i == 12 {
            assert(rows[12] == (16int, -36int));
            assert(rows[11] == (22int, -33int));
        } else if i == 13 {
            assert(rows[13] == (11int, -39int));
            assert(rows[12] == (16int, -36int));
        } else if i == 14 {
            assert(rows[14] == (8int, -42int));
            assert(rows[13] == (11int, -39int));
        } else if i == 15 {
            assert(rows[15] == (6int, -45int));
            assert(rows[14] == (8int, -42int));
        } else if i == 16 {
            assert(rows[16] == (4int, -48int));
            assert(rows[15] == (6int, -45int));
        } else if i == 17 {
            assert(rows[17] == (3int, -51int));
            assert(rows[16] == (4int, -48int));
        } else if i == 18 {
            assert(rows[18] == (2int, -54int));
            assert(rows[17] == (3int, -51int));
        }
    }
    assert(rows[18] == (2int, -54int));
}

/// Doubling the amplitude on the same full scale raises the reading by 3 to
/// 9 dB (about 6 dB in decibels proper), below full scale.
pub proof fn lemma_db_doubling(amplitude: u16)
    requires
        1 <= amplitude <= 500,
    ensures
        3 <= db_spec((2 * amplitude) as u16, 1000) - db_spec(amplitude, 1000) <= 9,
{
    let a = amplitude as int;
    assert(a * 1000 / 1000 == a);
    assert((2 * a) * 1000 / 1000 == 2 * a);
}

/// Ten times the amplitude on the same full scale raises the reading by 18 to
/// 21 dB (20 dB in decibels proper), below full scale.
pub proof fn lemma_db_decade(amplitude: u16)
    requires
        1 <= amplitude <= 100,
    ensures
        18 <= db_spec((10 * amplitude) as u16, 1000) - db_spec(amplitude, 1000) <= 21,
{
    let a = amplitude as int;
    assert(a * 1000 / 1000 == a);
    assert((10 * a) * 1000 / 1000 == 10 * a);
}

/// The dBFS reading is monotone in the amplitude: a louder signal never reads
/// lower on the same full scale.
pub proof fn lemma_db_monotone(a1: u16, a2: u16, adc_max: u16)
    requires
        a1 <= a2,
    ensures
        db_spec(a1, adc_max) <= db_spec(a2, adc_max),
{
    if a1 != 0 && adc_max != 0 {
        lemma_div_is_ordered(a1 * 1000, a2 * 1000, adc_max as int);
    }
}

} // verus!
