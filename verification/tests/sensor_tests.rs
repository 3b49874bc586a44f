use planty::soil::{SoilSensor, State};

#[test]
fn filtered_reading_drops_extremes() {
    let samples = [100, 0, 4095, 10, 20, 30, 40, 50, 60, 4000];
    // Sorted: 0 10 20 30 40 50 60 100 4000 4095; middle six: 20..100 -> 300 / 6 = 50.
    assert_eq!(SoilSensor::read_raw_filtered(samples), 50);
    assert_eq!(SoilSensor::read_raw_filtered([7; 10]), 7);
    assert_eq!(SoilSensor::read_raw_filtered([65535; 10]), 65535);
    assert_eq!(SoilSensor::read_raw_filtered([1, 2, 3, 4, 5, 6, 7, 8, 9, 10]), 5);
}

#[test]
fn percentage_formula() {
    let mut s = SoilSensor::new();
    assert_eq!(s.read_percentage(3000), 0);
    assert_eq!(s.read_percentage(3500), 0);
    assert_eq!(s.read_percentage(2000), 100);
    assert_eq!(s.read_percentage(1000), 100);
    assert_eq!(s.read_percentage(2500), 50);
    assert_eq!(s.read_percentage(2999), 0);
    assert_eq!(s.read_percentage(2001), 99);
    s.calibrate(3263, 1610);
    // (3263 - 2400) * 100 / 1653 = 52
    assert_eq!(s.read_percentage(2400), 52);
}

#[test]
fn percentage_with_inverted_calibration() {
    let mut s = SoilSensor::new();
    s.calibrate(1000, 2000);
    assert_eq!(s.read_percentage(1500), 0);
    assert_eq!(s.read_percentage(500), 100);
}

#[test]
fn state_flips_on_third_dry_reading() {
    let mut s = SoilSensor::new();
    assert_eq!(s.state(), State::Wet);
    assert_eq!(s.check_state(10), State::Wet);
    assert_eq!(s.check_state(30), State::Wet);
    assert_eq!(s.check_state(0), State::Dry);
    assert_eq!(s.check_state(31), State::Dry);
    assert_eq!(s.check_state(90), State::Dry);
    assert_eq!(s.check_state(90), State::Wet);
}

#[test]
fn agreeing_reading_resets_the_count() {
    let mut s = SoilSensor::new();
    assert_eq!(s.check_state(10), State::Wet);
    assert_eq!(s.check_state(10), State::Wet);
    assert_eq!(s.check_state(80), State::Wet);
    assert_eq!(s.check_state(10), State::Wet);
    assert_eq!(s.check_state(10), State::Wet);
    assert_eq!(s.check_state(10), State::Dry);
}
