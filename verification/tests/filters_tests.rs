use max4466::filter_ema::EmaFilter;
use max4466::filter_median::{insertion_sort, MedianFilter};
use max4466::filters::SmoothFilter;

#[test]
fn ema_first_sample_passes_through() {
    let mut f = EmaFilter::new();
    assert_eq!(f.update(1000), 1000);
}

#[test]
fn ema_default_alpha_smooths() {
    let mut f = EmaFilter::new();
    assert_eq!(f.update(1000), 1000);
    // acc = 224 * 256000 / 256 = 224000, rounded output 875
    assert_eq!(f.update(0), 875);
    // acc = 224 * 224000 / 256 = 196000, rounded output 766
    assert_eq!(f.update(0), 766);
}

#[test]
fn ema_full_alpha_applies_no_smoothing() {
    let mut f = EmaFilter::with_alpha(256);
    assert_eq!(f.update(100), 100);
    assert_eq!(f.update(5000), 5000);
    assert_eq!(f.update(0), 0);
    assert_eq!(f.update(65535), 65535);
}

#[test]
fn ema_half_alpha() {
    let mut f = EmaFilter::with_alpha(128);
    assert_eq!(f.update(0), 0);
    assert_eq!(f.update(1000), 500);
}

#[test]
fn ema_constant_input_is_fixed_point() {
    let mut f = EmaFilter::with_alpha(1);
    for _ in 0..20 {
        assert_eq!(f.update(3000), 3000);
    }
}

#[test]
fn ema_moves_toward_input_without_overshoot() {
    let mut f = EmaFilter::new();
    f.update(4000);
    let mut prev = 4000u16;
    for _ in 0..50 {
        let out = f.update(100);
        assert!(out <= prev);
        assert!(out >= 100);
        prev = out;
    }
}

#[test]
fn ema_reset_takes_next_sample_as_is() {
    let mut f = EmaFilter::new();
    f.update(1000);
    f.update(0);
    f.reset();
    assert_eq!(f.update(42), 42);
}

#[test]
fn ema_default_is_new() {
    let mut f = EmaFilter::default();
    assert_eq!(f.update(1000), 1000);
    assert_eq!(f.update(0), 875);
}

#[test]
fn ema_extreme_values_do_not_overflow() {
    let mut f = EmaFilter::with_alpha(255);
    assert_eq!(f.update(65535), 65535);
    assert_eq!(f.update(0), 0);
    let mut g = EmaFilter::with_alpha(0);
    assert_eq!(g.update(65535), 65535);
    assert_eq!(g.update(0), 65535);
}

#[test]
fn median_warm_up_and_sliding_window() {
    let mut m = MedianFilter::new();
    assert_eq!(m.update(5), 5);
    assert_eq!(m.update(1), 5);
    assert_eq!(m.update(9), 5);
    assert_eq!(m.update(3), 5);
    assert_eq!(m.update(7), 5);
    // the 5 leaves: window 1, 9, 3, 7, 2
    assert_eq!(m.update(2), 3);
    // the 1 leaves: window 9, 3, 7, 2, 2
    assert_eq!(m.update(2), 3);
}

#[test]
fn median_rejects_a_spike() {
    let mut m = MedianFilter::new();
    for _ in 0..4 {
        m.update(100);
    }
    assert_eq!(m.update(4000), 100);
    assert_eq!(m.update(4000), 100);
    assert_eq!(m.update(4000), 4000);
}

#[test]
fn median_is_a_sample_of_the_window() {
    let mut m = MedianFilter::new();
    let input = [17u16, 4, 250, 250, 3, 90, 1, 1000];
    for (k, &x) in input.iter().enumerate() {
        let r = m.update(x);
        let start = if k + 1 > 5 { k + 1 - 5 } else { 0 };
        assert!(input[start..=k].contains(&r));
    }
}

#[test]
fn median_reset_empties_the_window() {
    let mut m = MedianFilter::new();
    m.update(10);
    m.update(20);
    m.update(30);
    m.reset();
    assert_eq!(m.update(7), 7);
    assert_eq!(m.update(1), 7);
}

#[test]
fn median_default_is_new() {
    let mut m = MedianFilter::default();
    assert_eq!(m.update(8), 8);
}

#[test]
fn insertion_sort_sorts() {
    let mut a = [5u16, 3, 9, 1, 3];
    insertion_sort(&mut a);
    assert_eq!(a, [1, 3, 3, 5, 9]);
    let mut empty: [u16; 0] = [];
    insertion_sort(&mut empty);
    let mut one = [42u16];
    insertion_sort(&mut one);
    assert_eq!(one, [42]);
    let mut rev = [6u16, 5, 4, 3, 2, 1];
    insertion_sort(&mut rev);
    assert_eq!(rev, [1, 2, 3, 4, 5, 6]);
}

#[test]
fn smooth_mean_during_warm_up_then_sliding() {
    let mut f: SmoothFilter<4> = SmoothFilter::new();
    assert_eq!(f.feed(10), 10);
    assert_eq!(f.feed(20), 15);
    assert_eq!(f.feed(30), 20);
    assert_eq!(f.feed(40), 25);
    // 10 leaves the window
    assert_eq!(f.feed(50), 35);
    assert_eq!(f.feed(50), 42);
}

#[test]
fn smooth_mean_rounds_down() {
    let mut f: SmoothFilter<3> = SmoothFilter::new();
    assert_eq!(f.feed(1), 1);
    assert_eq!(f.feed(2), 1);
    assert_eq!(f.feed(2), 1);
    assert_eq!(f.feed(2), 2);
}

#[test]
fn smooth_single_sample_window() {
    let mut f: SmoothFilter<1> = SmoothFilter::new();
    assert_eq!(f.feed(7), 7);
    assert_eq!(f.feed(65535), 65535);
    assert_eq!(f.feed(0), 0);
}

#[test]
fn smooth_full_scale_does_not_overflow() {
    let mut f: SmoothFilter<32> = SmoothFilter::default();
    for _ in 0..100 {
        assert_eq!(f.feed(65535), 65535);
    }
}

#[test]
fn smooth_reset_starts_over() {
    let mut f: SmoothFilter<8> = SmoothFilter::new();
    for _ in 0..10 {
        f.feed(1000);
    }
    f.reset();
    assert_eq!(f.feed(10), 10);
    assert_eq!(f.feed(30), 20);
}

#[test]
fn ema_reset_behaves_as_fresh_filter() {
    let inputs = [900u16, 12, 4000, 4000, 7, 65535, 0];
    let mut used = EmaFilter::with_alpha(77);
    for &x in [1u16, 60000, 3].iter() {
        used.update(x);
    }
    used.reset();
    let mut fresh = EmaFilter::with_alpha(77);
    for &x in inputs.iter() {
        assert_eq!(used.update(x), fresh.update(x));
    }
}

#[test]
fn ema_new_matches_alpha_32() {
    let mut a = EmaFilter::new();
    let mut b = EmaFilter::with_alpha(32);
    for &x in [5u16, 4095, 0, 1234, 1234, 60000].iter() {
        assert_eq!(a.update(x), b.update(x));
    }
}

#[test]
fn median_forgets_inputs_older_than_window() {
    let mut a = MedianFilter::new();
    let mut b = MedianFilter::new();
    for &x in [60000u16, 60000, 60000, 10, 20, 30, 40].iter() {
        a.update(x);
    }
    for &x in [0u16, 10, 20, 30, 40].iter() {
        b.update(x);
    }
    for &x in [25u16, 1, 50000, 33].iter() {
        assert_eq!(a.update(x), b.update(x));
    }
}

#[test]
fn median_reset_behaves_as_fresh_filter() {
    let mut used = MedianFilter::new();
    for &x in [9u16, 8, 7, 6, 5, 4].iter() {
        used.update(x);
    }
    used.reset();
    let mut fresh = MedianFilter::new();
    for &x in [3u16, 300, 30, 3000, 1, 2].iter() {
        assert_eq!(used.update(x), fresh.update(x));
    }
}

#[test]
fn smooth_reset_behaves_as_fresh_filter() {
    let mut used: SmoothFilter<4> = SmoothFilter::new();
    for &x in [9u16, 8, 7, 6, 5, 4].iter() {
        used.feed(x);
    }
    used.reset();
    let mut fresh: SmoothFilter<4> = SmoothFilter::new();
    for &x in [3u16, 300, 30, 3000, 1, 2].iter() {
        assert_eq!(used.feed(x), fresh.feed(x));
    }
}

#[test]
fn ema_alpha_255_applies_no_smoothing() {
    let mut f = EmaFilter::with_alpha(255);
    assert_eq!(f.update(0), 0);
    assert_eq!(f.update(1000), 1000);
    assert_eq!(f.update(3), 3);
    assert_eq!(f.update(65535), 65535);
}

#[test]
fn ema_alpha_254_still_smooths() {
    let mut f = EmaFilter::with_alpha(254);
    assert_eq!(f.update(0), 0);
    // acc = 254 * 256000 / 256 = 254000, rounded output 992
    assert_eq!(f.update(1000), 992);
}

#[test]
fn smooth_large_window_while_sum_fits() {
    let mut f: SmoothFilter<70000> = SmoothFilter::new();
    assert_eq!(f.feed(1234), 1234);
    assert_eq!(f.feed(4), 619);
    f.reset();
    assert_eq!(f.feed(9), 9);
}
