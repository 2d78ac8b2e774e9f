use max4466::driver::{
    sample_count, Calibration, PeakTracker, SignalChain, ADC_12BIT_MAX, CALIBRATION_SAMPLES,
    DEFAULT_ZERO_POINT,
};
use max4466::{Max4466Error, MicData};

#[test]
fn window_sample_counts() {
    assert_eq!(sample_count(50), 250);
    assert_eq!(sample_count(0), 0);
    assert_eq!(sample_count(1), 5);
}

#[test]
fn calibration_mean_rounds_down() {
    let mut c = Calibration::new();
    c.add(2000);
    c.add(2010);
    c.add(2021);
    assert_eq!(c.zero_point(), 2010);
}

#[test]
fn calibration_of_constant_readings() {
    let mut c = Calibration::new();
    for _ in 0..CALIBRATION_SAMPLES {
        c.add(DEFAULT_ZERO_POINT);
    }
    assert_eq!(c.zero_point(), 2048);
}

#[test]
fn calibration_full_scale() {
    let mut c = Calibration::new();
    for _ in 0..1000 {
        c.add(65535);
    }
    assert_eq!(c.zero_point(), 65535);
}

#[test]
fn peak_to_peak_over_window() {
    let mut t = PeakTracker::new();
    t.observe(100);
    t.observe(300);
    t.observe(200);
    assert_eq!(t.amplitude(), 200);
}

#[test]
fn peak_to_peak_of_constant_or_empty_window() {
    let t = PeakTracker::new();
    assert_eq!(t.amplitude(), 0);
    let mut u = PeakTracker::new();
    u.observe(2048);
    u.observe(2048);
    assert_eq!(u.amplitude(), 0);
}

#[test]
fn peak_tracker_started_at_12bit_range() {
    let mut t = PeakTracker::starting_at(ADC_12BIT_MAX, 0);
    t.observe(2000);
    t.observe(2500);
    assert_eq!(t.amplitude(), 500);
    let mut u = PeakTracker::starting_at(4095, 0);
    u.observe(5000);
    u.observe(4500);
    assert_eq!(u.amplitude(), 905);
}

#[test]
fn signal_chain_raw_passes_through() {
    let mut c = SignalChain::raw();
    assert_eq!(c.process(123), 123);
    assert_eq!(c.process(4000), 4000);
}

#[test]
fn signal_chain_ema_only() {
    let mut c = SignalChain::with_filters(true, false);
    assert_eq!(c.process(1000), 1000);
    assert_eq!(c.process(0), 875);
}

#[test]
fn signal_chain_median_only() {
    let mut c = SignalChain::with_filters(false, true);
    assert_eq!(c.process(5), 5);
    assert_eq!(c.process(1), 5);
    assert_eq!(c.process(9), 5);
}

#[test]
fn signal_chain_ema_then_median() {
    let mut c = SignalChain::with_filters(true, true);
    assert_eq!(c.process(1000), 1000);
    // EMA gives 875, median of [1000, 875] is 1000
    assert_eq!(c.process(0), 1000);
    // EMA gives 766, median of [1000, 875, 766] is 875
    assert_eq!(c.process(0), 875);
}

#[test]
fn mic_data_and_error() {
    let d = MicData { amplitude: 12, raw: 2050 };
    let e = d;
    assert_eq!(e.amplitude, 12);
    assert_eq!(d.raw, 2050);
    assert_eq!(Max4466Error::AdcRead, Max4466Error::AdcRead);
}
