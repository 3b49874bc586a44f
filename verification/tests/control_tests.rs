use planty::control::{
    format_number, interpret_publish, parse_calibration, topic_calibrate, topic_motor, topic_soil, Command,
    Controller, PollOutcome, PollReaction, ValveAction,
};
use planty::mqtt::{decode_packet, publish_packet, MqttEvent};
use planty::servo::ServoState;
use planty::soil::State;

#[test]
fn format_number_digits() {
    let mut buf = [0xAAu8; 8];
    assert_eq!(format_number(0, &mut buf), 1);
    assert_eq!(&buf[..2], b"0\xAA");
    assert_eq!(format_number(7, &mut buf), 1);
    assert_eq!(&buf[..1], b"7");
    assert_eq!(format_number(42, &mut buf), 2);
    assert_eq!(&buf[..2], b"42");
    assert_eq!(format_number(255, &mut buf), 3);
    assert_eq!(&buf[..4], b"255\xAA");
    assert_eq!(format_number(100, &mut buf), 3);
    assert_eq!(&buf[..3], b"100");
}

#[test]
fn calibration_messages() {
    assert_eq!(parse_calibration("{\"dry\": 3263, \"wet\": 1610}"), Some((3263, 1610)));
    assert_eq!(parse_calibration("  {dry:3000,wet:2000}\n"), Some((3000, 2000)));
    assert_eq!(parse_calibration("{\"wet\" : 1, \"dry\" :: +2}"), Some((2, 1)));
    assert_eq!(parse_calibration("{dry: 1, wet: 2, dry: 3}"), Some((3, 2)));
    assert_eq!(parse_calibration("{\u{3000}dry: 5 ,\u{a0}wet:6\u{2003}}"), Some((5, 6)));
}

#[test]
fn calibration_rejections() {
    assert_eq!(parse_calibration(""), None);
    assert_eq!(parse_calibration("{"), None);
    assert_eq!(parse_calibration("{}"), None);
    assert_eq!(parse_calibration("dry: 1, wet: 2"), None);
    assert_eq!(parse_calibration("{dry: 1}"), None);
    assert_eq!(parse_calibration("{dry: 65536, wet: 2}"), None);
    assert_eq!(parse_calibration("{dry: 65535, wet: 2}"), Some((65535, 2)));
    assert_eq!(parse_calibration("{dry: -1, wet: 2}"), None);
    assert_eq!(parse_calibration("{dry: +, wet: 2}"), None);
    assert_eq!(parse_calibration("{dry: 1x, wet: 2}"), None);
    // A later unreadable value replaces an earlier good one.
    assert_eq!(parse_calibration("{dry: 1, wet: 2, wet: x}"), None);
    // "dryness" starts with "dry": its value does not parse.
    assert_eq!(parse_calibration("{dry: 1, wet: 2, dryness: 3}"), None);
}

fn publish_event(topic: &str, payload: &[u8]) -> MqttEvent {
    let bytes = publish_packet(topic, payload).ok().unwrap();
    decode_packet(&bytes).unwrap().0
}

fn command(topic: &str, payload: &[u8]) -> Command {
    match publish_event(topic, payload) {
        MqttEvent::Publish { topic, payload } => interpret_publish(&topic, &payload),
        _ => panic!("not a publish"),
    }
}

#[test]
fn commands_from_messages() {
    assert_eq!(topic_motor(), "planty/mecha/motor");
    assert_eq!(topic_calibrate(), "planty/sensor/calibrate");
    assert_eq!(topic_soil(), "planty/sensor/soil");
    assert_eq!(command("planty/mecha/motor", b"open"), Command::OpenValve);
    assert_eq!(command("planty/mecha/motor", b"close"), Command::CloseValve);
    assert_eq!(command("planty/mecha/motor", b"Open"), Command::UnknownMotorCommand);
    assert_eq!(command("planty/mecha/motor", b"\xFF"), Command::MotorCommandNotText);
    assert_eq!(
        command("planty/sensor/calibrate", b"{\"dry\": 3263, \"wet\": 1610}"),
        Command::Calibrate { dry: 3263, wet: 1610 }
    );
    assert_eq!(command("planty/sensor/calibrate", b"{}"), Command::CalibrationUnreadable);
    assert_eq!(command("planty/sensor/calibrate", b"{\xC3}"), Command::CalibrationNotText);
    assert_eq!(command("planty/sensor/soil", b"open"), Command::Ignore);
    assert_eq!(command("planty/mecha/motor/x", b"open"), Command::Ignore);
}

#[test]
fn soil_changes_move_the_valve() {
    let mut c = Controller::new();
    assert_eq!(c.on_soil_state(State::Wet), None);
    assert_eq!(c.on_soil_state(State::Dry), Some(ValveAction::Open));
    assert_eq!(c.on_soil_state(State::Dry), None);
    assert_eq!(c.on_soil_state(State::Wet), Some(ValveAction::Close));
}

#[test]
fn button_toggles_once_per_press() {
    let mut c = Controller::new();
    assert_eq!(c.on_button(false, ServoState::Close), None);
    assert_eq!(c.on_button(true, ServoState::Close), Some(ValveAction::Open));
    assert_eq!(c.on_button(true, ServoState::Open), None);
    assert_eq!(c.on_button(false, ServoState::Open), None);
    assert_eq!(c.on_button(true, ServoState::Open), Some(ValveAction::Close));
}

#[test]
fn silent_polls_force_a_reconnect() {
    let mut c = Controller::new();
    for _ in 0..44 {
        assert_eq!(c.on_poll(PollOutcome::NoData), PollReaction::Nothing);
    }
    assert_eq!(c.on_poll(PollOutcome::TimedOut), PollReaction::Reconnect);
    for _ in 0..30 {
        assert_eq!(c.on_poll(PollOutcome::TimedOut), PollReaction::Nothing);
    }
    // An event clears the count.
    assert_eq!(c.on_poll(PollOutcome::Event(MqttEvent::PingResp)), PollReaction::Nothing);
    for _ in 0..44 {
        assert_eq!(c.on_poll(PollOutcome::NoData), PollReaction::Nothing);
    }
    assert_eq!(c.on_poll(PollOutcome::Disconnected), PollReaction::Reconnect);
    assert_eq!(c.on_poll(PollOutcome::NoData), PollReaction::Nothing);
    let e = publish_event("planty/mecha/motor", b"open");
    assert_eq!(c.on_poll(PollOutcome::Event(e)), PollReaction::Command(Command::OpenValve));
}

#[test]
fn humidity_published_every_fifth_pass() {
    let mut c = Controller::new();
    let due: Vec<bool> = (0..16).map(|_| c.publish_due()).collect();
    let expected: Vec<bool> = (1..=16).map(|i| i > 1 && (i - 1) % 5 == 0).collect();
    assert_eq!(due, expected);
}
