use max4466::gate::NoiseGate;
use max4466::mapping::{map_range, to_db, to_percent};

#[test]
fn map_range_adc_to_pwm() {
    assert_eq!(map_range(2048, 0, 4095, 0, 255), 127);
    assert_eq!(map_range(0, 0, 4095, 0, 255), 0);
    assert_eq!(map_range(4095, 0, 4095, 0, 255), 255);
}

#[test]
fn map_range_saturates() {
    assert_eq!(map_range(5000, 0, 4095, 0, 255), 255);
    assert_eq!(map_range(10, 100, 200, 0, 10), 0);
    assert_eq!(map_range(65535, 100, 200, 20, 30), 30);
}

#[test]
fn map_range_inner_points() {
    assert_eq!(map_range(150, 100, 200, 0, 10), 5);
    assert_eq!(map_range(199, 100, 200, 0, 10), 9);
    assert_eq!(map_range(65535, 0, 65535, 0, 65535), 65535);
}

#[test]
fn map_range_empty_input_range() {
    assert_eq!(map_range(7, 5, 5, 3, 9), 3);
    assert_eq!(map_range(0, 5, 5, 9, 3), 9);
}

#[test]
fn map_range_is_monotone() {
    let mut prev = 0u16;
    for v in 0..=4200u16 {
        let r = map_range(v, 100, 4095, 10, 250);
        assert!(r >= prev);
        assert!((10..=250).contains(&r));
        prev = r;
    }
}

#[test]
fn to_percent_values() {
    assert_eq!(to_percent(2048, 4095), 50);
    assert_eq!(to_percent(4095, 4095), 100);
    assert_eq!(to_percent(5000, 4095), 100);
    assert_eq!(to_percent(40, 4095), 0);
    assert_eq!(to_percent(10, 0), 0);
}

#[test]
fn to_db_silence() {
    assert_eq!(to_db(0, 4095), -96);
    assert_eq!(to_db(100, 0), -96);
}

#[test]
fn to_db_table() {
    assert_eq!(to_db(4095, 4095), 0);
    assert_eq!(to_db(4095, 2000), 0);
    assert_eq!(to_db(2900, 4095), -3);
    assert_eq!(to_db(2048, 4095), -9);
    assert_eq!(to_db(1000, 4095), -15);
    assert_eq!(to_db(9, 4095), -54);
    assert_eq!(to_db(1, 4095), -60);
}

#[test]
fn to_db_is_monotone_and_in_range() {
    let mut prev = -96i8;
    for a in 0..=4095u16 {
        let d = to_db(a, 4095);
        assert!(d >= prev);
        assert!((-96..=0).contains(&d));
        prev = d;
    }
}

#[test]
fn gate_without_hold() {
    let mut g = NoiseGate::new(150);
    assert_eq!(g.process(149), None);
    assert_eq!(g.process(150), Some(150));
    assert_eq!(g.process(10), None);
    assert_eq!(g.process(3000), Some(3000));
    assert_eq!(g.process(0), None);
}

#[test]
fn gate_holds_after_crossing() {
    let mut g = NoiseGate::with_hold(150, 2);
    assert_eq!(g.process(100), None);
    assert_eq!(g.process(200), Some(200));
    assert_eq!(g.process(100), Some(100));
    assert_eq!(g.process(90), Some(90));
    assert_eq!(g.process(80), None);
    assert_eq!(g.process(150), Some(150));
    assert_eq!(g.process(1), Some(1));
}

#[test]
fn gate_hold_restarts_on_each_crossing() {
    let mut g = NoiseGate::with_hold(150, 1);
    assert_eq!(g.process(200), Some(200));
    assert_eq!(g.process(100), Some(100));
    assert_eq!(g.process(200), Some(200));
    assert_eq!(g.process(100), Some(100));
    assert_eq!(g.process(100), None);
}

#[test]
fn gate_reset_closes_at_once() {
    let mut g = NoiseGate::with_hold(150, 10);
    assert_eq!(g.process(200), Some(200));
    g.reset();
    assert_eq!(g.process(100), None);
}

#[test]
fn gate_threshold_on_the_fly() {
    let mut g = NoiseGate::new(150);
    assert_eq!(g.threshold(), 150);
    g.set_threshold(50);
    assert_eq!(g.threshold(), 50);
    assert_eq!(g.process(100), Some(100));
    assert_eq!(g.process(49), None);
}

#[test]
fn map_range_downward_output_range() {
    assert_eq!(map_range(0, 0, 4095, 255, 0), 255);
    assert_eq!(map_range(4095, 0, 4095, 255, 0), 0);
    assert_eq!(map_range(2048, 0, 4095, 255, 0), 128);
    assert_eq!(map_range(5000, 0, 4095, 255, 0), 0);
    let mut prev = 255u16;
    for v in 0..=4200u16 {
        let r = map_range(v, 0, 4095, 255, 0);
        assert!(r <= prev);
        prev = r;
    }
}

#[test]
fn gate_answer_follows_history() {
    // hold 3: a quiet amplitude passes while the last crossing is fewer than
    // 3 calls back
    let mut g = NoiseGate::with_hold(100, 3);
    let amps = [10u16, 150, 20, 30, 40, 50, 200, 1, 100, 2, 3, 4, 5];
    let expected = [
        None,
        Some(150),
        Some(20),
        Some(30),
        Some(40),
        None,
        Some(200),
        Some(1),
        Some(100),
        Some(2),
        Some(3),
        Some(4),
        None,
    ];
    for (a, e) in amps.iter().zip(expected.iter()) {
        assert_eq!(g.process(*a), *e);
    }
}
