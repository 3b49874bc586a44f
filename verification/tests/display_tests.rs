use planty::display::{boot_lines, metrics_lines, BufferWriter};
use planty::servo::{Servo180, Servo360, ServoState, ServoStep};

#[test]
fn metrics_screen() {
    let (l1, l2, l3) = metrics_lines(812, 7, true, false);
    assert_eq!(l1.as_str(), "Raw:  812       ");
    assert_eq!(l2.as_str(), "Hum:   7% [DRY!]");
    assert_eq!(l3.as_str(), "W:OK  M:!       ");
    let (l1, l2, l3) = metrics_lines(65535, 100, false, true);
    assert_eq!(l1.as_str(), "Raw: 65535      ");
    assert_eq!(l2.as_str(), "Hum: 100% [OK  ]");
    assert_eq!(l3.as_str(), "W:!   M:OK      ");
    let (_, l2, _) = metrics_lines(0, 30, true, true);
    assert_eq!(l2.as_str(), "Hum:  30% [OK  ]");
}

#[test]
fn boot_screen() {
    let (l1, l2, l3) = boot_lines("1. Sensor", "GPIO34 / ADC1 ready now");
    assert_eq!(l1.as_str(), "PLANTY          ");
    assert_eq!(l2.as_str(), "1. Sensor       ");
    assert_eq!(l3.as_str(), "GPIO34 / ADC1 re");
    // Cutting inside a two-byte character leaves an empty line.
    let (_, l2, _) = boot_lines("abcdefghijklmnoé", "");
    assert_eq!(l2.as_str(), "");
    assert_eq!(l2.as_bytes().len(), 16);
}

#[test]
fn writer_cuts_at_the_end() {
    let mut w = BufferWriter::new(5);
    w.write_str(b"ab");
    w.write_str(b"cdef");
    w.write_str(b"g");
    assert_eq!(w.as_bytes(), b"abcde");
}

#[test]
fn servo180_duties() {
    let s = Servo180::new(250);
    assert_eq!(s.set_angle(0), 5);
    assert_eq!(s.set_angle(90), 7);
    assert_eq!(s.set_angle(180), 10);
    assert_eq!(s.set_angle(255), 10);
    assert_eq!(s.disable(), 0);
    assert_eq!(Servo180::start_angle(ServoState::Open), 180);
    assert_eq!(Servo180::start_angle(ServoState::Close), 0);
    assert_eq!(s.set_angle(Servo180::start_angle(ServoState::Open)), 10);
    assert_eq!(s.open(), vec![ServoStep::SetDuty(10), ServoStep::WaitMs(250)]);
    assert_eq!(s.close(), vec![ServoStep::SetDuty(5), ServoStep::WaitMs(250)]);
}

#[test]
fn servo360_moves() {
    let s = Servo360::new(800);
    assert_eq!(s.stop(), 0);
    assert_eq!(s.open(), vec![ServoStep::SetDuty(10), ServoStep::WaitMs(800), ServoStep::SetDuty(0)]);
    assert_eq!(s.close(), vec![ServoStep::SetDuty(5), ServoStep::WaitMs(800), ServoStep::SetDuty(0)]);
}
